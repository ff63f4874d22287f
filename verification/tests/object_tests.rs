use blobkv::config::Config;
use blobkv::http::{Header, Response};
use blobkv::multipart::UploadRegistry;
use blobkv::object::{
    part_stored, plan_put, plan_read, plan_read_with, PutPlan, ReadPlan, ReadStep,
};
use blobkv::record::{Deleted, Record};

const HASH: &[u8] = b"7d793037a0760186574b0282f2f435e7";
const ON_B: &[u8] = b"http://B/3e/d1/L2hlbGxv";
const ON_C: &[u8] = b"http://C/3e/d1/L2hlbGxv";

fn names(items: &[&str]) -> Vec<Vec<u8>> {
    items.iter().map(|s| s.as_bytes().to_vec()).collect()
}

fn config(fallback: &str) -> Config {
    Config {
        volumes: names(&["A", "B", "C"]),
        replicas: 2,
        subvolumes: 1,
        fallback: fallback.as_bytes().to_vec(),
    }
}

fn record(volumes: &[&str], deleted: Deleted) -> Record {
    Record { volumes: names(volumes), deleted, hash: Some(HASH.to_vec()) }
}

fn header(name: &str, value: &[u8]) -> Header {
    Header { name: name.as_bytes().to_vec(), value: value.to_vec() }
}

fn placed_headers() -> Vec<Header> {
    vec![header("Content-Md5", HASH), header("Key-Volumes", b"C,B")]
}

fn redirect(mut headers: Vec<Header>, to: &[u8]) -> Response {
    headers.push(header("Location", to));
    headers.push(header("Content-Length", b"0"));
    Response { status: 302, headers, body: Vec::new() }
}

fn not_found(headers: Vec<Header>) -> Response {
    Response { status: 404, headers, body: Vec::new() }
}

#[test]
fn headers_are_built_from_name_and_value() {
    assert_eq!(Header::new(b"X", b"y"), header("X", b"y"));
    assert_eq!(Header::content_md5(HASH), header("Content-Md5", HASH));
    assert_eq!(Header::no_content(), header("Content-Length", b"0"));
    assert_eq!(Header::json(), header("Content-Type", b"application/json"));
    assert_eq!(Header::location(b"http://A/p"), header("Location", b"http://A/p"));
    assert_eq!(Header::unbalanced(), header("Key-Balance", b"unbalanced"));
    assert_eq!(Header::key_volumes(b"A,B"), header("Key-Volumes", b"A,B"));
    assert_eq!(
        Response::bare(404),
        Response { status: 404, headers: Vec::new(), body: Vec::new() }
    );
}

#[test]
fn missing_key_is_not_found() {
    let plan = plan_read(&config(""), &Record::absent(), b"/hello");
    assert_eq!(plan, ReadPlan::Respond { response: Response::bare(404) });
    let plan = plan_read(&config("http://fallback"), &Record::absent(), b"/hello");
    assert_eq!(plan, ReadPlan::Respond { response: Response::bare(404) });
}

#[test]
fn unlinked_key_is_not_found() {
    let plan = plan_read(&config(""), &record(&["C", "B"], Deleted::Soft), b"/hello");
    assert_eq!(
        plan,
        ReadPlan::Respond { response: not_found(vec![header("Content-Md5", HASH)]) }
    );
    let mut bare = record(&["C", "B"], Deleted::Soft);
    bare.hash = None;
    let plan = plan_read(&config(""), &bare, b"/hello");
    assert_eq!(plan, ReadPlan::Respond { response: Response::bare(404) });
}

#[test]
fn reader_of_an_unlinked_key_is_sent_elsewhere_if_there_is_a_place() {
    let cfg = config("http://fallback:8080");
    let plan = plan_read(&cfg, &record(&["C", "B"], Deleted::Soft), b"/hello");
    assert_eq!(
        plan,
        ReadPlan::Respond {
            response: redirect(
                vec![header("Content-Md5", HASH)],
                b"http://fallback:8080/3e/d1/L2hlbGxv"
            )
        }
    );
}

#[test]
fn live_key_is_looked_for_on_its_volumes_in_the_order_given() {
    let live = record(&["C", "B"], Deleted::No);
    let plan = plan_read_with(&config(""), &live, b"/hello", &[0, 1]);
    assert_eq!(
        plan,
        ReadPlan::Probe {
            headers: placed_headers(),
            candidates: vec![ON_C.to_vec(), ON_B.to_vec()]
        }
    );
    let plan = plan_read_with(&config(""), &live, b"/hello", &[1, 0]);
    assert_eq!(
        plan,
        ReadPlan::Probe {
            headers: placed_headers(),
            candidates: vec![ON_B.to_vec(), ON_C.to_vec()]
        }
    );
}

#[test]
fn key_on_other_volumes_than_it_should_be_is_unbalanced() {
    let plan = plan_read_with(&config(""), &record(&["B", "C"], Deleted::No), b"/hello", &[0, 1]);
    assert_eq!(
        plan,
        ReadPlan::Probe {
            headers: vec![header("Content-Md5", HASH), header("Key-Balance", b"unbalanced")],
            candidates: vec![ON_B.to_vec(), ON_C.to_vec()]
        }
    );
    let plan = plan_read_with(&config(""), &record(&["C"], Deleted::No), b"/hello", &[0]);
    match plan {
        ReadPlan::Probe { headers, .. } => {
            assert_eq!(headers[1], header("Key-Balance", b"unbalanced"))
        }
        other => panic!("unexpected plan {:?}", other),
    }
}

#[test]
fn record_without_hash_is_read_without_that_header() {
    let mut live = record(&["C", "B"], Deleted::No);
    live.hash = None;
    let plan = plan_read_with(&config(""), &live, b"/hello", &[0, 1]);
    assert_eq!(
        plan,
        ReadPlan::Probe {
            headers: vec![header("Key-Volumes", b"C,B")],
            candidates: vec![ON_C.to_vec(), ON_B.to_vec()]
        }
    );
}

#[test]
fn every_volume_is_probed_in_some_order() {
    let live = record(&["C", "B"], Deleted::No);
    let mut c_first = 0;
    let mut b_first = 0;
    for _ in 0..200 {
        match plan_read(&config(""), &live, b"/hello") {
            ReadPlan::Probe { headers, candidates } => {
                assert_eq!(headers, placed_headers());
                if candidates == vec![ON_C.to_vec(), ON_B.to_vec()] {
                    c_first += 1;
                } else {
                    assert_eq!(candidates, vec![ON_B.to_vec(), ON_C.to_vec()]);
                    b_first += 1;
                }
            }
            other => panic!("unexpected plan {:?}", other),
        }
    }
    assert!(c_first > 0);
    assert!(b_first > 0);
}

fn probe() -> ReadPlan {
    ReadPlan::Probe {
        headers: placed_headers(),
        candidates: vec![ON_C.to_vec(), ON_B.to_vec(), b"http://A/3e/d1/L2hlbGxv".to_vec()],
    }
}

#[test]
fn first_address_that_answers_wins() {
    assert_eq!(probe().resolve(&[true, true, true]), redirect(placed_headers(), ON_C));
    assert_eq!(probe().resolve(&[false, true, true]), redirect(placed_headers(), ON_B));
    assert_eq!(
        probe().resolve(&[false, false, true]),
        redirect(placed_headers(), b"http://A/3e/d1/L2hlbGxv")
    );
    assert_eq!(probe().resolve(&[true]), redirect(placed_headers(), ON_C));
}

#[test]
fn key_is_not_found_if_no_address_answers() {
    assert_eq!(probe().resolve(&[false, false, false]), not_found(placed_headers()));
    assert_eq!(probe().resolve(&[]), not_found(placed_headers()));
    assert_eq!(probe().resolve(&[false]), not_found(placed_headers()));
    let empty = ReadPlan::Probe { headers: placed_headers(), candidates: Vec::new() };
    assert_eq!(empty.resolve(&[true]), not_found(placed_headers()));
    assert_eq!(empty.begin(), ReadStep::Respond { response: not_found(placed_headers()) });
}

#[test]
fn ready_answer_is_given_as_it_is() {
    let plan = ReadPlan::Respond { response: Response::bare(404) };
    assert_eq!(plan.begin(), ReadStep::Respond { response: Response::bare(404) });
    assert_eq!(plan.resolve(&[true, true]), Response::bare(404));
}

#[test]
fn probing_goes_step_by_step() {
    let plan = probe();
    assert_eq!(plan.begin(), ReadStep::Probe { at: 0 });
    assert_eq!(plan.after_probe(0, false), ReadStep::Probe { at: 1 });
    assert_eq!(plan.after_probe(1, false), ReadStep::Probe { at: 2 });
    assert_eq!(
        plan.after_probe(2, false),
        ReadStep::Respond { response: not_found(placed_headers()) }
    );
    assert_eq!(
        plan.after_probe(1, true),
        ReadStep::Respond { response: redirect(placed_headers(), ON_B) }
    );
    assert_eq!(
        plan.after_probe(0, true),
        ReadStep::Respond { response: redirect(placed_headers(), ON_C) }
    );
}

fn put(length: Option<u64>, record: &Record, query: &[u8], known: &[&[u8]]) -> PutPlan {
    let mut registry = UploadRegistry::new();
    for id in known {
        registry.register(id);
    }
    plan_put(length, record, query, &registry)
}

#[test]
fn body_without_length_is_refused() {
    assert_eq!(put(None, &Record::absent(), b"", &[]), PutPlan::Reject { status: 411 });
    assert_eq!(put(Some(0), &Record::absent(), b"", &[]), PutPlan::Reject { status: 411 });
    // The length is asked for before the state of the key.
    let live = record(&["C", "B"], Deleted::No);
    assert_eq!(put(None, &live, b"", &[]), PutPlan::Reject { status: 411 });
    assert_eq!(put(Some(0), &live, b"uploadId=u", &[b"u"]), PutPlan::Reject { status: 411 });
}

#[test]
fn live_key_is_not_written_over() {
    let live = record(&["C", "B"], Deleted::No);
    assert_eq!(put(Some(1), &live, b"", &[]), PutPlan::Reject { status: 401 });
    assert_eq!(put(Some(1), &live, b"uploadId=u", &[b"u"]), PutPlan::Reject { status: 401 });
}

#[test]
fn missing_or_unlinked_key_is_written() {
    assert_eq!(put(Some(5), &Record::absent(), b"", &[]), PutPlan::Store);
    assert_eq!(put(Some(5), &record(&["C"], Deleted::Soft), b"", &[]), PutPlan::Store);
    assert_eq!(put(Some(u64::MAX), &Record::absent(), b"uploadId=u", &[]), PutPlan::Store);
}

#[test]
fn part_goes_to_a_known_upload() {
    assert_eq!(
        put(Some(5), &Record::absent(), b"partNumber=3&uploadId=u1", &[b"u1"]),
        PutPlan::StorePart { upload_id: b"u1".to_vec(), part: 3 }
    );
    assert_eq!(
        put(Some(5), &Record::absent(), b"uploadId=u1&partNumber=12", &[b"u0", b"u1"]),
        PutPlan::StorePart { upload_id: b"u1".to_vec(), part: 12 }
    );
}

#[test]
fn part_of_an_unknown_upload_is_refused() {
    assert_eq!(
        put(Some(5), &Record::absent(), b"partNumber=3&uploadId=u2", &[b"u1"]),
        PutPlan::Reject { status: 403 }
    );
    assert_eq!(
        put(Some(5), &Record::absent(), b"partNumber=3", &[b"u1"]),
        PutPlan::Reject { status: 403 }
    );
}

#[test]
fn part_without_a_number_is_refused() {
    assert_eq!(
        put(Some(5), &Record::absent(), b"partNumber=three&uploadId=u1", &[b"u1"]),
        PutPlan::Reject { status: 400 }
    );
    assert_eq!(
        put(Some(5), &Record::absent(), b"partNumber=&uploadId=u1", &[b"u1"]),
        PutPlan::Reject { status: 400 }
    );
}

#[test]
fn part_on_a_live_key_is_forbidden() {
    let live = record(&["C", "B"], Deleted::No);
    assert_eq!(
        put(Some(1), &live, b"partNumber=1&uploadId=u", &[b"u"]),
        PutPlan::Reject { status: 403 }
    );
    assert_eq!(
        put(Some(1), &live, b"partNumber=1&uploadId=u", &[]),
        PutPlan::Reject { status: 403 }
    );
    assert_eq!(put(None, &live, b"partNumber=1&uploadId=u", &[]), PutPlan::Reject { status: 403 });
    assert_eq!(
        put(Some(1), &live, b"partNumber=x&uploadId=u", &[b"u"]),
        PutPlan::Reject { status: 403 }
    );
}

#[test]
fn part_of_an_unknown_upload_is_forbidden_whatever_else_is_wrong() {
    let unlinked = record(&["C"], Deleted::Soft);
    for length in [None, Some(0), Some(7)] {
        for query in [&b"partNumber=1&uploadId=u2"[..], b"partNumber=x&uploadId=u2", b"partNumber="] {
            assert_eq!(
                put(length, &Record::absent(), query, &[b"u1"]),
                PutPlan::Reject { status: 403 }
            );
            assert_eq!(put(length, &unlinked, query, &[b"u1"]), PutPlan::Reject { status: 403 });
        }
    }
}

#[test]
fn part_needs_no_length() {
    assert_eq!(
        put(None, &Record::absent(), b"partNumber=2&uploadId=u1", &[b"u1"]),
        PutPlan::StorePart { upload_id: b"u1".to_vec(), part: 2 }
    );
    assert_eq!(
        put(Some(0), &Record::absent(), b"partNumber=2&uploadId=u1", &[b"u1"]),
        PutPlan::StorePart { upload_id: b"u1".to_vec(), part: 2 }
    );
    assert_eq!(
        put(None, &Record::absent(), b"partNumber=two&uploadId=u1", &[b"u1"]),
        PutPlan::Reject { status: 400 }
    );
}

#[test]
fn staged_part_is_answered_with_200() {
    assert_eq!(part_stored(true), 200);
    assert_eq!(part_stored(false), 500);
}

#[test]
fn addresses_of_a_plan() {
    let plan = probe();
    assert_eq!(plan.candidate(0), Some(ON_C.to_vec()));
    assert_eq!(plan.candidate(1), Some(ON_B.to_vec()));
    assert_eq!(plan.candidate(2), Some(b"http://A/3e/d1/L2hlbGxv".to_vec()));
    assert_eq!(plan.candidate(3), None);
    assert_eq!(plan.candidate(usize::MAX), None);
    let ready = ReadPlan::Respond { response: Response::bare(404) };
    assert_eq!(ready.candidate(0), None);
}

#[test]
fn probe_of_a_position_that_is_not_there_ends_the_read() {
    let plan = probe();
    assert_eq!(
        plan.after_probe(3, false),
        ReadStep::Respond { response: not_found(placed_headers()) }
    );
    assert_eq!(
        plan.after_probe(3, true),
        ReadStep::Respond { response: not_found(placed_headers()) }
    );
    assert_eq!(
        plan.after_probe(usize::MAX, false),
        ReadStep::Respond { response: not_found(placed_headers()) }
    );
    let ready = ReadPlan::Respond { response: Response::bare(404) };
    assert_eq!(
        ready.after_probe(0, true),
        ReadStep::Respond { response: Response::bare(404) }
    );
}
