use blobkv::http::Method;
use blobkv::router::{
    list_options, parse_number, query_has_flag, query_has_param, query_param, read_method,
    refuse_key, route, screen_request, ListOptions, Operation,
};

#[test]
fn reads() {
    assert_eq!(route(Method::Get, b""), Operation::Read);
    assert_eq!(route(Method::Head, b""), Operation::Read);
    assert_eq!(route(Method::Head, b"list"), Operation::Read);
}

#[test]
fn listings() {
    assert_eq!(route(Method::Get, b"list"), Operation::List);
    assert_eq!(route(Method::Get, b"list&start=/a&limit=10"), Operation::List);
    assert_eq!(route(Method::Get, b"unlinked"), Operation::Unlinked);
    assert_eq!(route(Method::Get, b"unlinked&limit=2"), Operation::Unlinked);
    assert_eq!(route(Method::Get, b"prefix=photos/"), Operation::BucketList);
    assert_eq!(route(Method::Get, b"x=1&prefix="), Operation::BucketList);
}

#[test]
fn listing_is_asked_for_by_the_first_segment() {
    assert_eq!(route(Method::Get, b"limit=10&list"), Operation::Refuse { status: 400 });
    assert_eq!(route(Method::Get, b"listing"), Operation::Refuse { status: 400 });
    assert_eq!(route(Method::Get, b"list=1"), Operation::Refuse { status: 400 });
    assert_eq!(route(Method::Get, b"whatever"), Operation::Refuse { status: 400 });
}

#[test]
fn writes() {
    assert_eq!(route(Method::Put, b""), Operation::Write);
    assert_eq!(route(Method::Put, b"anything"), Operation::Write);
    assert_eq!(route(Method::Put, b"partNumber=1&uploadId=u"), Operation::PartUpload);
    assert_eq!(route(Method::Put, b"uploadId=u&partNumber=1"), Operation::PartUpload);
    assert_eq!(route(Method::Put, b"uploadId=u"), Operation::Write);
}

#[test]
fn deletes() {
    assert_eq!(route(Method::Delete, b""), Operation::Delete { unlink: false });
    assert_eq!(route(Method::Delete, b"unlink"), Operation::Delete { unlink: true });
    assert_eq!(route(Method::Delete, b"x=1&unlink"), Operation::Delete { unlink: true });
    assert_eq!(route(Method::Delete, b"unlinked"), Operation::Delete { unlink: false });
    assert_eq!(route(Method::Delete, b"uploadId=u"), Operation::AbortUpload);
}

#[test]
fn posts() {
    assert_eq!(route(Method::Post, b"uploads"), Operation::InitiateUpload);
    assert_eq!(route(Method::Post, b"delete"), Operation::BulkDelete);
    assert_eq!(route(Method::Post, b"uploadId=u"), Operation::CompleteUpload);
    assert_eq!(route(Method::Post, b"x=1&uploadId=u"), Operation::CompleteUpload);
    assert_eq!(route(Method::Post, b""), Operation::UnknownPost);
    assert_eq!(route(Method::Post, b"uploads&x=1"), Operation::UnknownPost);
    assert_eq!(route(Method::Post, b"list"), Operation::UnknownPost);
}

#[test]
fn parameters_of_a_query() {
    assert_eq!(query_param(b"list&start=/a&limit=10", b"start"), Some(b"/a".to_vec()));
    assert_eq!(query_param(b"list&start=/a&limit=10", b"limit"), Some(b"10".to_vec()));
    assert_eq!(query_param(b"list&start=/a&limit=10", b"prefix"), None);
    assert_eq!(query_param(b"", b"start"), None);
    assert_eq!(query_param(b"start=", b"start"), Some(b"".to_vec()));
    assert_eq!(query_param(b"start", b"start"), None);
    assert_eq!(query_param(b"restart=1", b"start"), None);
}

#[test]
fn first_of_two_parameters_counts_and_a_value_ends_at_the_next_equals_sign() {
    assert_eq!(query_param(b"limit=1&limit=2", b"limit"), Some(b"1".to_vec()));
    assert_eq!(query_param(b"start=a=b", b"start"), Some(b"a".to_vec()));
}

#[test]
fn flags_of_a_query() {
    assert!(query_has_flag(b"unlink", b"unlink"));
    assert!(query_has_flag(b"a=1&unlink&b", b"unlink"));
    assert!(!query_has_flag(b"unlinked", b"unlink"));
    assert!(!query_has_flag(b"unlink=1", b"unlink"));
    assert!(!query_has_flag(b"", b"unlink"));
    assert!(query_has_param(b"a=1&uploadId=7", b"uploadId"));
    assert!(!query_has_param(b"a=1&uploadId", b"uploadId"));
}

#[test]
fn numbers() {
    assert_eq!(parse_number(b"0"), Some(0));
    assert_eq!(parse_number(b"10"), Some(10));
    assert_eq!(parse_number(b"007"), Some(7));
    assert_eq!(parse_number(b"+5"), Some(5));
    assert_eq!(parse_number(b"18446744073709551615"), Some(usize::MAX));
    assert_eq!(parse_number(b"18446744073709551616"), None);
    assert_eq!(parse_number(b"99999999999999999999999"), None);
    assert_eq!(parse_number(b""), None);
    assert_eq!(parse_number(b"+"), None);
    assert_eq!(parse_number(b"-1"), None);
    assert_eq!(parse_number(b"1a"), None);
    assert_eq!(parse_number(b" 1"), None);
    assert_eq!(parse_number(b"++1"), None);
}

#[test]
fn options_of_a_listing() {
    assert_eq!(
        list_options(b"list&start=/bucket/k3&limit=25"),
        ListOptions { start: b"/bucket/k3".to_vec(), limit: 25 }
    );
    assert_eq!(list_options(b"list"), ListOptions { start: Vec::new(), limit: 0 });
    assert_eq!(list_options(b"list&limit=many"), ListOptions { start: Vec::new(), limit: 0 });
    assert_eq!(list_options(b"unlinked&limit=0"), ListOptions { start: Vec::new(), limit: 0 });
}

#[test]
fn methods_by_name() {
    assert_eq!(read_method(b"GET"), Some(Method::Get));
    assert_eq!(read_method(b"HEAD"), Some(Method::Head));
    assert_eq!(read_method(b"PUT"), Some(Method::Put));
    assert_eq!(read_method(b"DELETE"), Some(Method::Delete));
    assert_eq!(read_method(b"POST"), Some(Method::Post));
    assert_eq!(read_method(b"PATCH"), None);
    assert_eq!(read_method(b"OPTIONS"), None);
    assert_eq!(read_method(b"get"), None);
    assert_eq!(read_method(b"GETS"), None);
    assert_eq!(read_method(b""), None);
}

#[test]
fn keys_that_are_refused() {
    assert_eq!(refuse_key(b""), None);
    assert_eq!(refuse_key(b"/hello"), None);
    assert_eq!(refuse_key(&vec![b'k'; 4096]), None);
}

#[test]
fn requests_that_are_carried_out() {
    assert_eq!(screen_request(b"GET", b"/hello", b""), Operation::Read);
    assert_eq!(screen_request(b"HEAD", b"/hello", b""), Operation::Read);
    assert_eq!(screen_request(b"GET", b"/bucket", b"list&limit=2"), Operation::List);
    assert_eq!(screen_request(b"GET", b"/bucket", b"unlinked"), Operation::Unlinked);
    assert_eq!(screen_request(b"GET", b"/bucket", b"prefix=a"), Operation::BucketList);
    assert_eq!(screen_request(b"PUT", b"/hello", b""), Operation::Write);
    assert_eq!(
        screen_request(b"PUT", b"/hello", b"partNumber=1&uploadId=u"),
        Operation::PartUpload
    );
    assert_eq!(screen_request(b"DELETE", b"/hello", b"unlink"), Operation::Delete { unlink: true });
    assert_eq!(screen_request(b"DELETE", b"/hello", b"uploadId=u"), Operation::AbortUpload);
    assert_eq!(screen_request(b"POST", b"/hello", b"uploads"), Operation::InitiateUpload);
    assert_eq!(screen_request(b"POST", b"/hello", b"uploadId=u"), Operation::CompleteUpload);
    assert_eq!(screen_request(b"POST", b"/bucket", b"delete"), Operation::BulkDelete);
    assert_eq!(screen_request(b"POST", b"/hello", b"other"), Operation::UnknownPost);
}

#[test]
fn requests_that_are_refused() {
    assert_eq!(screen_request(b"PATCH", b"/hello", b""), Operation::Refuse { status: 405 });
    assert_eq!(screen_request(b"get", b"/hello", b"list"), Operation::Refuse { status: 405 });
    assert_eq!(screen_request(b"GET", b"/hello", b"whatever"), Operation::Refuse { status: 400 });
    assert_eq!(screen_request(b"GET", b"/hello", b"limit=1&list"), Operation::Refuse { status: 400 });
}
