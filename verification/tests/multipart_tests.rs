use blobkv::http::{received, Response};
use blobkv::multipart::{
    abort_upload, assemble, bulk_delete_goes_on, bulk_delete_key, bulk_delete_status,
    concat_parts, holds_part_of, plan_post, plan_post_with, staging_name, staging_names, Abort,
    PostPlan, UploadRegistry,
};
use blobkv::record::{Deleted, Record};

const ID: &[u8] = b"0f8fad5b-d9cb-469f-a165-70867728950e";

fn live() -> Record {
    Record { volumes: vec![b"A".to_vec()], deleted: Deleted::No, hash: None }
}

fn unlinked() -> Record {
    Record { volumes: vec![b"A".to_vec()], deleted: Deleted::Soft, hash: None }
}

fn respond(status: u16) -> PostPlan {
    PostPlan::Respond { response: Response::bare(status) }
}

#[test]
fn registry_remembers_and_forgets() {
    let mut registry = UploadRegistry::new();
    assert!(!registry.contains(b"u1"));
    registry.register(b"u1");
    registry.register(b"u2");
    registry.register(b"u1");
    assert!(registry.contains(b"u1"));
    assert!(registry.contains(b"u2"));
    assert!(!registry.contains(b"u3"));
    assert!(registry.remove(b"u1"));
    assert!(!registry.contains(b"u1"));
    assert!(!registry.remove(b"u1"));
    assert!(registry.contains(b"u2"));
    assert!(!registry.remove(b"u3"));
    assert!(registry.remove(b"u2"));
    assert!(!registry.contains(b"u2"));
}

#[test]
fn names_of_staged_parts() {
    assert_eq!(staging_name(b"/tmp", b"u1", 3), b"/tmp/u1-3".to_vec());
    assert_eq!(staging_name(b"/var/stage", ID, 12), [b"/var/stage/", ID, b"-12"].concat());
    assert_eq!(staging_name(b"", b"u", 0), b"/u-0".to_vec());
    assert_eq!(
        staging_names(b"/tmp", b"u1", &[2, 1, 10]),
        vec![b"/tmp/u1-2".to_vec(), b"/tmp/u1-1".to_vec(), b"/tmp/u1-10".to_vec()]
    );
    assert_eq!(staging_names(b"/tmp", b"u1", &[]), Vec::<Vec<u8>>::new());
}

#[test]
fn files_that_hold_a_part_of_an_upload() {
    assert!(holds_part_of(b"u1-3", b"u1"));
    assert!(holds_part_of(b"u1-10", b"u1"));
    assert!(!holds_part_of(b"u1-", b"u1"));
    assert!(!holds_part_of(b"u1-x", b"u1"));
    assert!(!holds_part_of(b"u1-3a", b"u1"));
    assert!(!holds_part_of(b"u12-3", b"u1"));
    assert!(!holds_part_of(b"u1", b"u1"));
    assert!(!holds_part_of(b"xu1-3", b"u1"));
}

#[test]
fn parts_are_put_together_in_the_order_given() {
    let parts = vec![b"part-one|".to_vec(), b"part-two|".to_vec(), b"part-three".to_vec()];
    assert_eq!(concat_parts(&parts), b"part-one|part-two|part-three".to_vec());
    assert_eq!(concat_parts(&[b"b".to_vec(), b"".to_vec(), b"a".to_vec()]), b"ba".to_vec());
    assert_eq!(concat_parts(&[]), Vec::<u8>::new());
}

#[test]
fn live_key_takes_no_post() {
    let mut registry = UploadRegistry::new();
    registry.register(b"u1");
    for query in [&b"uploads"[..], b"delete", b"uploadId=u1", b"", b"other"] {
        assert_eq!(plan_post_with(&live(), query, &mut registry, ID), respond(403));
    }
    assert!(registry.contains(b"u1"));
    assert!(!registry.contains(ID));
    assert_eq!(plan_post(&live(), b"uploads", &mut registry), respond(403));
}

#[test]
fn upload_is_begun_and_remembered() {
    let mut registry = UploadRegistry::new();
    let plan = plan_post_with(&Record::absent(), b"uploads", &mut registry, ID);
    let body = [
        &b"<InitiateMultipartUploadResult><UploadId>"[..],
        ID,
        b"</UploadId></InitiateMultipartUploadResult>",
    ]
    .concat();
    assert_eq!(
        plan,
        PostPlan::Respond { response: Response { status: 200, headers: Vec::new(), body } }
    );
    assert!(registry.contains(ID));
}

#[test]
fn upload_on_an_unlinked_key_is_begun_too() {
    let mut registry = UploadRegistry::new();
    let plan = plan_post_with(&unlinked(), b"uploads", &mut registry, b"u7");
    match plan {
        PostPlan::Respond { response } => assert_eq!(response.status, 200),
        other => panic!("unexpected plan {:?}", other),
    }
    assert!(registry.contains(b"u7"));
}

fn begun(registry: &mut UploadRegistry) -> Vec<u8> {
    let open: &[u8] = b"<InitiateMultipartUploadResult><UploadId>";
    let close: &[u8] = b"</UploadId></InitiateMultipartUploadResult>";
    match plan_post(&Record::absent(), b"uploads", registry) {
        PostPlan::Respond { response } => {
            assert_eq!(response.status, 200);
            assert!(response.headers.is_empty());
            assert!(response.body.starts_with(open));
            assert!(response.body.ends_with(close));
            response.body[open.len()..response.body.len() - close.len()].to_vec()
        }
        other => panic!("unexpected plan {:?}", other),
    }
}

#[test]
fn identifier_of_an_upload_has_the_shape_of_a_random_uuid() {
    let mut registry = UploadRegistry::new();
    let id = begun(&mut registry);
    assert_eq!(id.len(), 36);
    for (at, byte) in id.iter().enumerate() {
        match at {
            8 | 13 | 18 | 23 => assert_eq!(*byte, b'-'),
            _ => assert!(byte.is_ascii_digit() || (b'a'..=b'f').contains(byte)),
        }
    }
    assert_eq!(id[14], b'4');
    assert!(matches!(id[19], b'8' | b'9' | b'a' | b'b'));
    assert!(registry.contains(&id));
}

#[test]
fn identifiers_of_two_uploads_differ() {
    let mut registry = UploadRegistry::new();
    let first = begun(&mut registry);
    let second = begun(&mut registry);
    assert_ne!(first, second);
    assert!(registry.contains(&first));
    assert!(registry.contains(&second));
}

#[test]
fn known_upload_is_completed_once() {
    let mut registry = UploadRegistry::new();
    registry.register(b"u1");
    let plan = plan_post_with(&Record::absent(), b"uploadId=u1", &mut registry, b"");
    assert_eq!(plan, PostPlan::Complete { upload_id: b"u1".to_vec() });
    assert!(!registry.contains(b"u1"));
    let plan = plan_post(&Record::absent(), b"uploadId=u1", &mut registry);
    assert_eq!(plan, respond(403));
}

#[test]
fn unknown_upload_is_not_completed() {
    let mut registry = UploadRegistry::new();
    registry.register(b"u1");
    assert_eq!(plan_post(&Record::absent(), b"uploadId=u2", &mut registry), respond(403));
    assert_eq!(plan_post(&Record::absent(), b"uploadId=", &mut registry), respond(403));
    assert!(registry.contains(b"u1"));
}

#[test]
fn other_posts() {
    let mut registry = UploadRegistry::new();
    assert_eq!(plan_post(&Record::absent(), b"delete", &mut registry), PostPlan::BulkDelete);
    assert_eq!(plan_post(&unlinked(), b"delete", &mut registry), PostPlan::BulkDelete);
    assert_eq!(plan_post(&Record::absent(), b"", &mut registry), respond(400));
    assert_eq!(plan_post(&Record::absent(), b"list", &mut registry), respond(400));
    assert_eq!(plan_post(&Record::absent(), b"uploads&x", &mut registry), respond(400));
}

#[test]
fn upload_that_is_given_up_is_forgotten() {
    let mut registry = UploadRegistry::new();
    registry.register(b"u1");
    registry.register(b"u2");
    assert_eq!(
        abort_upload(b"uploadId=u1", &mut registry),
        Abort { upload_id: b"u1".to_vec(), status: 204 }
    );
    assert!(!registry.contains(b"u1"));
    assert!(registry.contains(b"u2"));
    assert_eq!(
        abort_upload(b"uploadId=u9", &mut registry),
        Abort { upload_id: b"u9".to_vec(), status: 204 }
    );
    assert_eq!(abort_upload(b"", &mut registry), Abort { upload_id: Vec::new(), status: 204 });
    assert!(registry.contains(b"u2"));
}

#[test]
fn keys_of_a_bulk_delete() {
    assert_eq!(bulk_delete_key(b"/bucket", b"a"), b"/bucket/a".to_vec());
    assert_eq!(bulk_delete_key(b"/bucket", b"dir/b"), b"/bucket/dir/b".to_vec());
    assert_eq!(bulk_delete_key(b"", b""), b"/".to_vec());
}

#[test]
fn bulk_delete_ends_at_the_first_failure() {
    assert!(bulk_delete_goes_on(204));
    assert!(!bulk_delete_goes_on(404));
    assert!(!bulk_delete_goes_on(500));
    assert!(!bulk_delete_goes_on(200));
    assert_eq!(bulk_delete_status(&[]), 204);
    assert_eq!(bulk_delete_status(&[204, 204, 204]), 204);
    assert_eq!(bulk_delete_status(&[204, 500, 204]), 500);
    assert_eq!(bulk_delete_status(&[204, 404, 500]), 404);
    assert_eq!(bulk_delete_status(&[500]), 500);
}

#[test]
fn staged_parts_are_put_together_if_all_are_there() {
    let parts = vec![Some(b"one|".to_vec()), Some(b"".to_vec()), Some(b"three".to_vec())];
    assert_eq!(assemble(&parts), Ok(b"one|three".to_vec()));
    assert_eq!(assemble(&[]), Ok(Vec::new()));
    assert_eq!(assemble(&[Some(b"b".to_vec()), Some(b"a".to_vec())]), Ok(b"ba".to_vec()));
}

#[test]
fn upload_with_a_part_that_was_never_staged_is_refused() {
    assert_eq!(assemble(&[Some(b"one".to_vec()), None, Some(b"three".to_vec())]), Err(400));
    assert_eq!(assemble(&[None]), Err(400));
    assert_eq!(assemble(&[Some(b"one".to_vec()), None]), Err(400));
}

#[test]
fn body_that_was_not_understood_is_refused() {
    assert_eq!(received(Some(vec![1u64, 2, 3])), Ok(vec![1u64, 2, 3]));
    assert_eq!(received(Some(b"body".to_vec())), Ok(b"body".to_vec()));
    assert_eq!(received::<Vec<u8>>(None), Err(400));
}

#[test]
fn refused_post_leaves_the_uploads_as_they_were() {
    let mut registry = UploadRegistry::new();
    registry.register(b"u1");
    assert_eq!(plan_post(&live(), b"uploadId=u1", &mut registry), respond(403));
    assert_eq!(plan_post(&Record::absent(), b"uploadId=u2", &mut registry), respond(403));
    assert_eq!(plan_post(&Record::absent(), b"nothing", &mut registry), respond(400));
    assert!(registry.contains(b"u1"));
    assert!(!registry.contains(b"u2"));
}
