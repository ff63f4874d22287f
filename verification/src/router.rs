//! From a request's method and query string to the operation it asks for.
//!
//! A query string is a list of segments separated by `&`. A segment is a
//! flag, such as `list`, or a parameter, a name followed by `=` and a value.
//! The value of a parameter ends at the next `=` of its segment, if there is
//! one.

use crate::bytes::{
    ascii, has_prefix, lemma_split_pieces, literal, same, split, split_on, to_vec, views,
};
use crate::http::{Method, BAD_REQUEST, METHOD_NOT_ALLOWED};
use crate::placement::{key_fits, key_is_short};
use vstd::prelude::*;

verus! {

/// The separator between the segments of a query string.
pub const AMPERSAND: u8 = 0x26;

/// The separator between the name and the value of a parameter.
pub const EQUALS: u8 = 0x3d;

/// The segments of a query string.
pub open spec fn segments(query: Seq<u8>) -> Seq<Seq<u8>> {
    split(query, AMPERSAND)
}

/// Whether the segment at `i` is the first one that begins with `prefix`.
pub open spec fn is_first_with(segs: Seq<Seq<u8>>, prefix: Seq<u8>, i: int) -> bool {
    &&& 0 <= i < segs.len()
    &&& prefix.is_prefix_of(segs[i])
    &&& forall|j: int| 0 <= j < i ==> !prefix.is_prefix_of(#[trigger] segs[j])
}

/// Whether the query string holds the parameter `name`.
pub open spec fn has_param(query: Seq<u8>, name: Seq<u8>) -> bool {
    exists|i: int| is_first_with(segments(query), name.push(EQUALS), i)
}

/// The value of the parameter `name`: that of the first segment that begins
/// with the name and `=`, read up to the next `=`.
pub open spec fn param(query: Seq<u8>, name: Seq<u8>) -> Option<Seq<u8>> {
    if has_param(query, name) {
        let i = choose|i: int| is_first_with(segments(query), name.push(EQUALS), i);
        Some(split(segments(query)[i], EQUALS)[1])
    } else {
        None
    }
}

/// Whether some segment of the query string is the flag `name`.
pub open spec fn has_flag(query: Seq<u8>, name: Seq<u8>) -> bool {
    segments(query).contains(name)
}

/// The first segment of the query string.
pub open spec fn first_segment(query: Seq<u8>) -> Seq<u8> {
    segments(query)[0]
}

/// Whether every byte of the text is a decimal digit, and there is one.
pub open spec fn is_digits(text: Seq<u8>) -> bool {
    text.len() > 0 && forall|i: int| 0 <= i < text.len() ==> 0x30 <= #[trigger] text[i] <= 0x39
}

/// The number that a text of decimal digits stands for.
pub open spec fn digits_value(text: Seq<u8>) -> nat
    decreases text.len(),
{
    if text.len() == 0 {
        0
    } else {
        digits_value(text.drop_last()) * 10 + (text.last() - 0x30) as nat
    }
}

/// A number as it is written in a query string: decimal digits, with a `+`
/// in front if one likes.
pub open spec fn unsigned(text: Seq<u8>) -> Seq<u8> {
    if text.len() > 0 && text[0] == 0x2b {
        text.skip(1)
    } else {
        text
    }
}

/// The number that a text stands for, if it is one that fits the machine.
pub open spec fn number(text: Seq<u8>) -> Option<usize> {
    if is_digits(unsigned(text)) && digits_value(unsigned(text)) <= usize::MAX {
        Some(digits_value(unsigned(text)) as usize)
    } else {
        None
    }
}

/// The value of a text of digits grows with every digit read.
proof fn lemma_digits_grow(text: Seq<u8>, i: int)
    requires
        0 <= i <= text.len(),
        is_digits(text),
    ensures
        digits_value(text.take(i)) <= digits_value(text),
    decreases text.len() - i,
{
    if i < text.len() {
        let next = text.take(i + 1);
        assert(next.drop_last() =~= text.take(i));
        assert(next.last() == text[i]);
        lemma_digits_grow(text, i + 1);
    } else {
        assert(text.take(i) =~= text);
    }
}

/// Reads a number.
pub fn parse_number(text: &[u8]) -> (r: Option<usize>)
    ensures
        r == number(text@),
{
    let digits = if text.len() > 0 && text[0] == 0x2b {
        crate::bytes::tail(text, 1)
    } else {
        text
    };
    if digits.len() == 0 {
        return None;
    }
    let mut value: usize = 0;
    let mut i: usize = 0;
    while i < digits.len()
        invariant
            i <= digits.len(),
            digits@ == unsigned(text@),
            forall|j: int| 0 <= j < i ==> 0x30 <= #[trigger] digits@[j] <= 0x39,
            value == digits_value(digits@.take(i as int)),
        decreases digits.len() - i,
    {
        let b = digits[i];
        if b < 0x30 || b > 0x39 {
            return None;
        }
        let d: usize = (b - 0x30) as usize;
        let ghost next = digits@.take(i + 1);
        assert(next.drop_last() =~= digits@.take(i as int));
        assert(next.last() == b);
        if value > (usize::MAX - d) / 10 {
            proof {
                assert(digits_value(next) > usize::MAX);
                if is_digits(digits@) {
                    lemma_digits_grow(digits@, i + 1);
                }
            }
            return None;
        }
        value = value * 10 + d;
        i += 1;
    }
    assert(digits@.take(digits.len() as int) =~= digits@);
    Some(value)
}

/// The position of the first segment that begins with `prefix`, if any.
fn first_with(segs: &Vec<Vec<u8>>, prefix: &[u8]) -> (r: Option<usize>)
    ensures
        match r {
            Some(i) => is_first_with(views(segs@), prefix@, i as int),
            None => forall|i: int| !is_first_with(views(segs@), prefix@, i),
        },
{
    let mut i: usize = 0;
    while i < segs.len()
        invariant
            i <= segs.len(),
            forall|j: int| 0 <= j < i ==> !prefix@.is_prefix_of(#[trigger] views(segs@)[j]),
        decreases segs.len() - i,
    {
        if has_prefix(segs[i].as_slice(), prefix) {
            assert(views(segs@)[i as int] == segs@[i as int]@);
            return Some(i);
        }
        assert(views(segs@)[i as int] == segs@[i as int]@);
        i += 1;
    }
    None
}

/// The first segment that begins with a given prefix is one segment only.
proof fn lemma_first_with_unique(segs: Seq<Seq<u8>>, prefix: Seq<u8>, i: int, j: int)
    requires
        is_first_with(segs, prefix, i),
        is_first_with(segs, prefix, j),
    ensures
        i == j,
{
}

/// The value of the parameter `name` of a query string, if it holds one.
pub fn query_param(query: &[u8], name: &[u8]) -> (r: Option<Vec<u8>>)
    ensures
        match r {
            Some(value) => param(query@, name@) == Some(value@),
            None => param(query@, name@) is None,
        },
{
    let segs = split_on(query, AMPERSAND);
    let mut prefix = to_vec(name);
    prefix.push(EQUALS);
    match first_with(&segs, prefix.as_slice()) {
        Some(i) => {
            let pieces = split_on(segs[i].as_slice(), EQUALS);
            proof {
                let chosen = choose|k: int| is_first_with(segments(query@), name@.push(EQUALS), k);
                lemma_first_with_unique(segments(query@), name@.push(EQUALS), i as int, chosen);
                let seg = segments(query@)[i as int];
                lemma_split_pieces(seg, EQUALS);
                crate::bytes::lemma_first_at(seg, EQUALS);
                let at = crate::bytes::first_at(seg, EQUALS);
                assert(prefix@[name@.len() as int] == EQUALS);
                assert(seg[name@.len() as int] == prefix@[name@.len() as int]) by {
                    let begun = seg.subrange(0, prefix@.len() as int);
                    assert(begun[name@.len() as int] == seg[name@.len() as int]);
                }
                assert(at < seg.len()) by {
                    if at >= seg.len() {
                        assert(seg[name@.len() as int] != EQUALS);
                    }
                }
                assert(split(seg, EQUALS).len() >= 2) by {
                    lemma_split_pieces(seg.skip(at + 1), EQUALS);
                }
                assert(views(pieces@)[1] == pieces@[1]@);
            }
            Some(to_vec(pieces[1].as_slice()))
        },
        None => None,
    }
}

/// Whether a query string holds the parameter `name`.
pub fn query_has_param(query: &[u8], name: &[u8]) -> (r: bool)
    ensures
        r == has_param(query@, name@),
{
    let segs = split_on(query, AMPERSAND);
    let mut prefix = to_vec(name);
    prefix.push(EQUALS);
    assert(prefix@ == name@.push(EQUALS));
    match first_with(&segs, prefix.as_slice()) {
        Some(i) => {
            assert(is_first_with(segments(query@), name@.push(EQUALS), i as int));
            true
        },
        None => false,
    }
}

/// Whether some segment of a query string is the flag `name`.
pub fn query_has_flag(query: &[u8], name: &[u8]) -> (r: bool)
    ensures
        r == has_flag(query@, name@),
{
    let segs = split_on(query, AMPERSAND);
    crate::bytes::is_among(segs.as_slice(), name)
}

/// What a request asks for.
#[derive(Clone, Copy, PartialEq, Eq, Debug, Structural)]
pub enum Operation {
    /// Where is this key? Asked with GET or HEAD.
    Read,
    /// Which keys begin with this one and are live?
    List,
    /// Which keys begin with this one and are unlinked?
    Unlinked,
    /// Which live keys of this bucket begin with a prefix?
    BucketList,
    /// Store the body under this key.
    Write,
    /// Store the body as one part of an upload.
    PartUpload,
    /// Unlink the key, or purge it.
    Delete { unlink: bool },
    /// Give up an upload.
    AbortUpload,
    /// Begin an upload.
    InitiateUpload,
    /// Put the parts of an upload together and store them under this key.
    CompleteUpload,
    /// Purge the keys that the body names.
    BulkDelete,
    /// Nothing is done; the client is told why.
    Refuse { status: u16 },
    /// A POST whose query names nothing that can be asked.
    UnknownPost,
}

/// The word `list`.
pub open spec fn word_list() -> Seq<u8> {
    ascii("list"@)
}

/// The word `unlinked`.
pub open spec fn word_unlinked() -> Seq<u8> {
    ascii("unlinked"@)
}

/// The word `unlink`.
pub open spec fn word_unlink() -> Seq<u8> {
    ascii("unlink"@)
}

/// The word `uploads`.
pub open spec fn word_uploads() -> Seq<u8> {
    ascii("uploads"@)
}

/// The word `delete`.
pub open spec fn word_delete() -> Seq<u8> {
    ascii("delete"@)
}

/// The parameter name `prefix`.
pub open spec fn name_prefix() -> Seq<u8> {
    ascii("prefix"@)
}

/// The parameter name `start`.
pub open spec fn name_start() -> Seq<u8> {
    ascii("start"@)
}

/// The parameter name `limit`.
pub open spec fn name_limit() -> Seq<u8> {
    ascii("limit"@)
}

/// The parameter name `uploadId`.
pub open spec fn name_upload_id() -> Seq<u8> {
    ascii("uploadId"@)
}

/// The parameter name `partNumber`.
pub open spec fn name_part_number() -> Seq<u8> {
    ascii("partNumber"@)
}

/// The operation that a method and a query string ask for. A GET whose
/// query names nothing that can be asked is refused with 400.
pub open spec fn operation(method: Method, query: Seq<u8>) -> Operation {
    match method {
        Method::Head => Operation::Read,
        Method::Get => {
            if query.len() == 0 {
                Operation::Read
            } else if first_segment(query) == word_list() {
                Operation::List
            } else if first_segment(query) == word_unlinked() {
                Operation::Unlinked
            } else if has_param(query, name_prefix()) {
                Operation::BucketList
            } else {
                Operation::Refuse { status: BAD_REQUEST }
            }
        },
        Method::Put => {
            if has_param(query, name_part_number()) {
                Operation::PartUpload
            } else {
                Operation::Write
            }
        },
        Method::Delete => {
            if has_param(query, name_upload_id()) {
                Operation::AbortUpload
            } else {
                Operation::Delete { unlink: has_flag(query, word_unlink()) }
            }
        },
        Method::Post => {
            if query == word_uploads() {
                Operation::InitiateUpload
            } else if query == word_delete() {
                Operation::BulkDelete
            } else if has_param(query, name_upload_id()) {
                Operation::CompleteUpload
            } else {
                Operation::UnknownPost
            }
        },
    }
}

/// The operation that a request asks for. A request without a query string
/// is one with an empty one.
pub fn route(method: Method, query: &[u8]) -> (op: Operation)
    ensures
        op == operation(method, query@),
{
    proof {
        reveal_strlit("list");
        reveal_strlit("unlinked");
        reveal_strlit("unlink");
        reveal_strlit("uploads");
        reveal_strlit("delete");
        reveal_strlit("prefix");
        reveal_strlit("uploadId");
        reveal_strlit("partNumber");
    }
    match method {
        Method::Head => Operation::Read,
        Method::Get => {
            if query.len() == 0 {
                return Operation::Read;
            }
            let segs = split_on(query, AMPERSAND);
            proof {
                lemma_split_pieces(query@, AMPERSAND);
                assert(views(segs@)[0] == segs@[0]@);
            }
            if same(segs[0].as_slice(), literal("list")) {
                Operation::List
            } else if same(segs[0].as_slice(), literal("unlinked")) {
                Operation::Unlinked
            } else if query_has_param(query, literal("prefix")) {
                Operation::BucketList
            } else {
                Operation::Refuse { status: BAD_REQUEST }
            }
        },
        Method::Put => {
            if query_has_param(query, literal("partNumber")) {
                Operation::PartUpload
            } else {
                Operation::Write
            }
        },
        Method::Delete => {
            if query_has_param(query, literal("uploadId")) {
                Operation::AbortUpload
            } else {
                Operation::Delete { unlink: query_has_flag(query, literal("unlink")) }
            }
        },
        Method::Post => {
            if same(query, literal("uploads")) {
                Operation::InitiateUpload
            } else if same(query, literal("delete")) {
                Operation::BulkDelete
            } else if query_has_param(query, literal("uploadId")) {
                Operation::CompleteUpload
            } else {
                Operation::UnknownPost
            }
        },
    }
}

/// The method that a name stands for: `GET`, `HEAD`, `PUT`, `DELETE` and
/// `POST` in capitals, and no other name.
pub open spec fn method_named(name: Seq<u8>) -> Option<Method> {
    if name == ascii("GET"@) {
        Some(Method::Get)
    } else if name == ascii("HEAD"@) {
        Some(Method::Head)
    } else if name == ascii("PUT"@) {
        Some(Method::Put)
    } else if name == ascii("DELETE"@) {
        Some(Method::Delete)
    } else if name == ascii("POST"@) {
        Some(Method::Post)
    } else {
        None
    }
}

/// Reads the method of a request from its name.
pub fn read_method(name: &[u8]) -> (r: Option<Method>)
    ensures
        r == method_named(name@),
{
    proof {
        reveal_strlit("GET");
        reveal_strlit("HEAD");
        reveal_strlit("PUT");
        reveal_strlit("DELETE");
        reveal_strlit("POST");
    }
    if same(name, literal("GET")) {
        Some(Method::Get)
    } else if same(name, literal("HEAD")) {
        Some(Method::Head)
    } else if same(name, literal("PUT")) {
        Some(Method::Put)
    } else if same(name, literal("DELETE")) {
        Some(Method::Delete)
    } else if same(name, literal("POST")) {
        Some(Method::Post)
    } else {
        None
    }
}

/// What answers a request on a key that is too long for its path to be
/// written: 400. Any other key is not refused.
pub open spec fn key_refusal(key: Seq<u8>) -> Option<u16> {
    if key_fits(key) {
        None
    } else {
        Some(BAD_REQUEST)
    }
}

/// Says whether a key is refused for its length, and with which status.
pub fn refuse_key(key: &[u8]) -> (r: Option<u16>)
    ensures
        r == key_refusal(key@),
{
    if key_is_short(key) {
        None
    } else {
        Some(BAD_REQUEST)
    }
}

/// What is made of a request: the operation that its method and query ask
/// for, unless it is refused before that.
///
/// A method that the coordinator does not answer is refused with 405 and a
/// key that is too long with 400. What becomes of a POST whose query names
/// nothing is decided once the record of the key is known.
pub open spec fn admission(method: Seq<u8>, key: Seq<u8>, query: Seq<u8>) -> Operation {
    match method_named(method) {
        None => Operation::Refuse { status: METHOD_NOT_ALLOWED },
        Some(m) => match key_refusal(key) {
            Some(status) => Operation::Refuse { status },
            None => operation(m, query),
        },
    }
}

/// Decides what is made of a request, from the name of its method, its key
/// and its query string. A request that is not refused has a key that is
/// short enough for its path to be written.
pub fn screen_request(method: &[u8], key: &[u8], query: &[u8]) -> (op: Operation)
    ensures
        op == admission(method@, key@, query@),
        !(op is Refuse) ==> key_fits(key@),
{
    match read_method(method) {
        None => Operation::Refuse { status: METHOD_NOT_ALLOWED },
        Some(m) => match refuse_key(key) {
            Some(status) => Operation::Refuse { status },
            None => route(m, query),
        },
    }
}

/// Where a listing starts and how long it may get.
#[derive(Clone, PartialEq, Eq, Debug)]
pub struct ListOptions {
    /// The key after which the listing starts; empty to start at the beginning.
    pub start: Vec<u8>,
    /// How many keys the listing may hold; zero for as many as there are.
    pub limit: usize,
}

/// The key after which a listing starts: the value of `start`, or nothing.
pub open spec fn list_start(query: Seq<u8>) -> Seq<u8> {
    match param(query, name_start()) {
        Some(start) => start,
        None => Seq::empty(),
    }
}

/// How many keys a listing may hold: the value of `limit` where it is a
/// number, else zero.
pub open spec fn list_limit(query: Seq<u8>) -> usize {
    match param(query, name_limit()) {
        Some(text) => match number(text) {
            Some(limit) => limit,
            None => 0,
        },
        None => 0,
    }
}

/// Reads the options of a listing from its query string.
pub fn list_options(query: &[u8]) -> (options: ListOptions)
    ensures
        options.start@ == list_start(query@),
        options.limit == list_limit(query@),
{
    proof {
        reveal_strlit("start");
        reveal_strlit("limit");
    }
    let start = match query_param(query, literal("start")) {
        Some(start) => start,
        None => Vec::new(),
    };
    let limit = match query_param(query, literal("limit")) {
        Some(text) => match parse_number(text.as_slice()) {
            Some(limit) => limit,
            None => 0,
        },
        None => 0,
    };
    ListOptions { start, limit }
}

} // verus!
