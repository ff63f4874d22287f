//! Listing the keys of the index.
//!
//! The index hands out its entries in bytewise key order. A listing keeps
//! the keys that begin with a prefix, come after a starting key and are in
//! the asked-for state, and is cut into pages.

use crate::bytes::{ascii, extend, has_prefix, lex_lt, literal, precedes, tail, to_vec, views};
use crate::http::{Header, Response, ResponseView, INTERNAL_ERROR, OK};
use crate::record::{decode, Deleted, Record};
use crate::router::{name_prefix, param, query_param};
use vstd::prelude::*;

verus! {

/// The most keys that a listing may hold.
pub const MAX_KEYS: usize = 1_000_000;

/// One entry of the index.
#[derive(Clone, PartialEq, Eq, Debug)]
pub struct Entry {
    pub key: Vec<u8>,
    pub row: Vec<u8>,
}

impl View for Entry {
    type V = (Seq<u8>, Seq<u8>);

    open spec fn view(&self) -> (Seq<u8>, Seq<u8>) {
        (self.key@, self.row@)
    }
}

/// The entries of the index as pairs of key and row.
pub open spec fn entry_views(entries: Seq<Entry>) -> Seq<(Seq<u8>, Seq<u8>)> {
    Seq::new(entries.len(), |i: int| entries[i]@)
}

/// Which keys a listing shows.
#[derive(Clone, Copy, PartialEq, Eq, Debug, Structural)]
pub enum ListMode {
    /// The keys that are live.
    Live,
    /// The keys that are unlinked.
    Unlinked,
}

/// Why there is no listing.
#[derive(Clone, Copy, PartialEq, Eq, Debug, Structural)]
pub enum ListError {
    /// The listing would hold more keys than a listing may.
    TooManyKeys,
}

/// One page of a listing.
#[derive(Clone, PartialEq, Eq, Debug)]
pub struct Listing {
    /// The first key that did not fit the page; empty if all did.
    pub next: Vec<u8>,
    /// The keys of the page.
    pub keys: Vec<Vec<u8>>,
}

/// One page of a listing as a mathematical value.
pub struct ListingView {
    pub next: Seq<u8>,
    pub keys: Seq<Seq<u8>>,
}

impl View for Listing {
    type V = ListingView;

    open spec fn view(&self) -> ListingView {
        ListingView { next: self.next@, keys: views(self.keys@) }
    }
}

/// Whether a row is shown in a listing of the given kind: it stands for a
/// record, and the record is live for a listing of live keys, unlinked for a
/// listing of unlinked ones.
pub open spec fn shows(mode: ListMode, row: Seq<u8>) -> bool {
    match decode(row) {
        Ok(record) => match mode {
            ListMode::Live => record.deleted == Deleted::No,
            ListMode::Unlinked => record.deleted == Deleted::Soft,
        },
        Err(_) => false,
    }
}

/// Whether a key belongs to a listing: it begins with the prefix and, where
/// a starting key is given, comes after it.
pub open spec fn in_range(prefix: Seq<u8>, start: Seq<u8>, key: Seq<u8>) -> bool {
    prefix.is_prefix_of(key) && (start.len() == 0 || lex_lt(start, key))
}

/// The keys of a listing, in the order of the index.
pub open spec fn selected(
    entries: Seq<(Seq<u8>, Seq<u8>)>,
    mode: ListMode,
    prefix: Seq<u8>,
    start: Seq<u8>,
) -> Seq<Seq<u8>>
    decreases entries.len(),
{
    if entries.len() == 0 {
        Seq::empty()
    } else {
        let before = selected(entries.drop_last(), mode, prefix, start);
        let last = entries.last();
        if in_range(prefix, start, last.0) && shows(mode, last.1) {
            before.push(last.0)
        } else {
            before
        }
    }
}

/// A listing cut to a page.
///
/// Where a limit is given and there are more keys than it allows, the page
/// holds as many keys as the limit says and names the next one. Else the
/// page holds all keys, unless they are more than a listing may hold.
pub open spec fn page(keys: Seq<Seq<u8>>, limit: nat) -> Result<ListingView, ListError> {
    if 0 < limit <= MAX_KEYS && keys.len() > limit {
        Ok(ListingView { next: keys[limit as int], keys: keys.take(limit as int) })
    } else if keys.len() > MAX_KEYS {
        Err(ListError::TooManyKeys)
    } else {
        Ok(ListingView { next: Seq::empty(), keys })
    }
}

/// The keys selected from a beginning of the index are a beginning of the
/// keys selected from all of it.
pub proof fn lemma_selected_grows(
    entries: Seq<(Seq<u8>, Seq<u8>)>,
    mode: ListMode,
    prefix: Seq<u8>,
    start: Seq<u8>,
    i: int,
)
    requires
        0 <= i <= entries.len(),
    ensures
        selected(entries.take(i), mode, prefix, start).is_prefix_of(
            selected(entries, mode, prefix, start),
        ),
    decreases entries.len() - i,
{
    if i < entries.len() {
        let next = entries.take(i + 1);
        assert(next.drop_last() =~= entries.take(i));
        lemma_selected_grows(entries, mode, prefix, start, i + 1);
        let a = selected(entries.take(i), mode, prefix, start);
        let b = selected(next, mode, prefix, start);
        let c = selected(entries, mode, prefix, start);
        assert(a =~= c.subrange(0, a.len() as int)) by {
            assert(b =~= c.subrange(0, b.len() as int));
            assert forall|j: int| 0 <= j < a.len() implies a[j] == c[j] by {
                assert(a[j] == b[j]);
                assert(b[j] == c.subrange(0, b.len() as int)[j]);
            }
        }
    } else {
        assert(entries.take(i) =~= entries);
        let c = selected(entries, mode, prefix, start);
        assert(c =~= c.subrange(0, c.len() as int));
    }
}

/// A listing holds the key of every entry that belongs to it, and the key of
/// no other entry.
pub proof fn lemma_selected_keys(
    entries: Seq<(Seq<u8>, Seq<u8>)>,
    mode: ListMode,
    prefix: Seq<u8>,
    start: Seq<u8>,
    key: Seq<u8>,
)
    ensures
        selected(entries, mode, prefix, start).contains(key) <==> exists|i: int|
            0 <= i < entries.len() && (#[trigger] entries[i]).0 == key && in_range(
                prefix,
                start,
                key,
            ) && shows(mode, entries[i].1),
    decreases entries.len(),
{
    let keys = selected(entries, mode, prefix, start);
    if entries.len() > 0 {
        let init = entries.drop_last();
        let before = selected(init, mode, prefix, start);
        let last = entries.last();
        let taken = in_range(prefix, start, last.0) && shows(mode, last.1);
        lemma_selected_keys(init, mode, prefix, start, key);
        if keys.contains(key) {
            let k = choose|k: int| 0 <= k < keys.len() && keys[k] == key;
            if taken && k == before.len() {
                assert(entries[entries.len() - 1].0 == key);
            } else {
                assert(before[k] == key);
                let i = choose|i: int|
                    0 <= i < init.len() && (#[trigger] init[i]).0 == key && in_range(
                        prefix,
                        start,
                        key,
                    ) && shows(mode, init[i].1);
                assert(entries[i] == init[i]);
            }
        }
        if exists|i: int|
            0 <= i < entries.len() && (#[trigger] entries[i]).0 == key && in_range(
                prefix,
                start,
                key,
            ) && shows(mode, entries[i].1) {
            let i = choose|i: int|
                0 <= i < entries.len() && (#[trigger] entries[i]).0 == key && in_range(
                    prefix,
                    start,
                    key,
                ) && shows(mode, entries[i].1);
            if i == entries.len() - 1 {
                assert(keys[before.len() as int] == key);
            } else {
                assert(init[i] == entries[i]);
                assert(before.contains(key));
                let k = choose|k: int| 0 <= k < before.len() && before[k] == key;
                assert(keys[k] == key);
            }
        }
    }
}

/// Whether an entry belongs to a listing.
fn is_selected(entry: &Entry, mode: ListMode, prefix: &[u8], start: &[u8]) -> (r: bool)
    ensures
        r == (in_range(prefix@, start@, entry.key@) && shows(mode, entry.row@)),
{
    if !has_prefix(entry.key.as_slice(), prefix) {
        return false;
    }
    if start.len() != 0 && !precedes(start, entry.key.as_slice()) {
        return false;
    }
    match Record::from_bytes(entry.row.as_slice()) {
        Ok(record) => match mode {
            ListMode::Live => record.deleted == Deleted::No,
            ListMode::Unlinked => record.deleted == Deleted::Soft,
        },
        Err(_) => false,
    }
}

/// One page of the listing of the given entries of the index.
///
/// `entries` are what the index holds under the prefix, in its order;
/// entries whose key does not begin with the prefix are passed over. A
/// `start` that is not empty leaves out the keys up to and including it. A
/// `limit` of zero asks for all keys.
pub fn list_page(entries: &[Entry], mode: ListMode, prefix: &[u8], start: &[u8], limit: usize) -> (r:
    Result<Listing, ListError>)
    ensures
        match r {
            Ok(listing) => page(
                selected(entry_views(entries@), mode, prefix@, start@),
                limit as nat,
            ) == Ok::<ListingView, ListError>(listing@),
            Err(e) => page(selected(entry_views(entries@), mode, prefix@, start@), limit as nat)
                == Err::<ListingView, ListError>(e),
        },
{
    let ghost all = entry_views(entries@);
    let mut keys: Vec<Vec<u8>> = Vec::new();
    let mut i: usize = 0;
    while i < entries.len()
        invariant
            i <= entries.len(),
            all == entry_views(entries@),
            views(keys@) == selected(all.take(i as int), mode, prefix@, start@),
            keys@.len() <= MAX_KEYS,
            limit == 0 || keys@.len() <= limit,
        decreases entries.len() - i,
    {
        let ghost next = all.take(i + 1);
        assert(next.drop_last() =~= all.take(i as int));
        assert(next.last() == entries@[i as int]@);
        if is_selected(&entries[i], mode, prefix, start) {
            proof {
                lemma_selected_grows(all, mode, prefix@, start@, i + 1);
                let sofar = selected(next, mode, prefix@, start@);
                let every = selected(all, mode, prefix@, start@);
                assert(sofar == views(keys@).push(entries@[i as int].key@));
                assert(sofar =~= every.subrange(0, sofar.len() as int));
                assert(every[keys@.len() as int] == sofar[keys@.len() as int]);
                assert(every.take(keys@.len() as int) =~= views(keys@)) by {
                    assert forall|j: int| 0 <= j < keys@.len() implies every[j] == views(keys@)[j] by {
                        assert(every.subrange(0, sofar.len() as int)[j] == sofar[j]);
                    }
                }
            }
            if limit > 0 && keys.len() == limit {
                return Ok(Listing { next: to_vec(entries[i].key.as_slice()), keys });
            }
            if keys.len() >= MAX_KEYS {
                return Err(ListError::TooManyKeys);
            }
            let ghost before = views(keys@);
            keys.push(to_vec(entries[i].key.as_slice()));
            assert(views(keys@) =~= before.push(entries@[i as int].key@));
        }
        i += 1;
    }
    assert(all.take(entries.len() as int) =~= all);
    Ok(Listing { next: Vec::new(), keys })
}

/// The literal `<ListBucketResult>`.
pub open spec fn bucket_open() -> Seq<u8> {
    ascii("<ListBucketResult>"@)
}

/// The literal `</ListBucketResult>`.
pub open spec fn bucket_close() -> Seq<u8> {
    ascii("</ListBucketResult>"@)
}

/// The literal `<Key>`.
pub open spec fn key_open() -> Seq<u8> {
    ascii("<Key>"@)
}

/// The literal `</Key>`.
pub open spec fn key_close() -> Seq<u8> {
    ascii("</Key>"@)
}

/// The keys of a bucket listing written out one after the other, each
/// without its first `strip` bytes.
pub open spec fn key_items(keys: Seq<Seq<u8>>, strip: int) -> Seq<u8>
    decreases keys.len(),
{
    if keys.len() == 0 {
        Seq::empty()
    } else {
        key_items(keys.drop_last(), strip) + key_open() + keys.last().skip(strip) + key_close()
    }
}

/// The body of a bucket listing: the live keys that begin with the prefix,
/// each without the prefix.
pub open spec fn bucket_body(entries: Seq<(Seq<u8>, Seq<u8>)>, prefix: Seq<u8>) -> Seq<u8> {
    bucket_open() + key_items(
        selected(entries, ListMode::Live, prefix, Seq::empty()),
        prefix.len() as int,
    ) + bucket_close()
}

/// The prefix of a bucket listing: the bucket, a slash, and the value of
/// the parameter `prefix` if there is one.
pub open spec fn bucket_prefix(bucket: Seq<u8>, query: Seq<u8>) -> Seq<u8> {
    bucket + seq![0x2fu8] + (match param(query, name_prefix()) {
        Some(value) => value,
        None => Seq::empty(),
    })
}

/// The prefix of a bucket listing.
pub fn bucket_list_prefix(bucket: &[u8], query: &[u8]) -> (out: Vec<u8>)
    ensures
        out@ == bucket_prefix(bucket@, query@),
{
    proof {
        reveal_strlit("prefix");
    }
    let mut out = to_vec(bucket);
    out.push(0x2f);
    match query_param(query, literal("prefix")) {
        Some(value) => {
            extend(&mut out, value.as_slice());
        },
        None => {},
    }
    assert(out@ =~= bucket_prefix(bucket@, query@));
    out
}

/// The body of a bucket listing of the given entries of the index.
pub fn bucket_list_body(entries: &[Entry], prefix: &[u8]) -> (out: Vec<u8>)
    ensures
        out@ == bucket_body(entry_views(entries@), prefix@),
{
    proof {
        reveal_strlit("<ListBucketResult>");
        reveal_strlit("</ListBucketResult>");
        reveal_strlit("<Key>");
        reveal_strlit("</Key>");
    }
    let ghost all = entry_views(entries@);
    let ghost none = Seq::<u8>::empty();
    let empty: Vec<u8> = Vec::new();
    let item_open = literal("<Key>");
    let item_close = literal("</Key>");
    let mut out = to_vec(literal("<ListBucketResult>"));
    let mut i: usize = 0;
    assert(out@ =~= bucket_open() + key_items(
        selected(all.take(0), ListMode::Live, prefix@, none),
        prefix@.len() as int,
    ));
    while i < entries.len()
        invariant
            i <= entries.len(),
            all == entry_views(entries@),
            none == Seq::<u8>::empty(),
            empty@ == none,
            item_open@ == key_open(),
            item_close@ == key_close(),
            out@ == bucket_open() + key_items(
                selected(all.take(i as int), ListMode::Live, prefix@, none),
                prefix@.len() as int,
            ),
        decreases entries.len() - i,
    {
        let ghost next = all.take(i + 1);
        assert(next.drop_last() =~= all.take(i as int));
        assert(next.last() == entries@[i as int]@);
        if is_selected(&entries[i], ListMode::Live, prefix, empty.as_slice()) {
            let ghost sofar = selected(next, ListMode::Live, prefix@, none);
            assert(sofar.drop_last() =~= selected(all.take(i as int), ListMode::Live, prefix@, none));
            assert(sofar.last() == entries@[i as int].key@);
            extend(&mut out, item_open);
            extend(&mut out, tail(entries[i].key.as_slice(), prefix.len()));
            extend(&mut out, item_close);
            assert(out@ =~= bucket_open() + key_items(sofar, prefix@.len() as int));
        }
        i += 1;
    }
    assert(all.take(entries.len() as int) =~= all);
    extend(&mut out, literal("</ListBucketResult>"));
    out
}

/// The answer that carries a listing written out as JSON, or the status
/// 500 where the listing could not be written out.
pub open spec fn json_response(body: Option<Seq<u8>>) -> ResponseView {
    match body {
        Some(text) => ResponseView {
            status: OK,
            headers: seq![(crate::http::content_type(), crate::http::json_type())],
            body: text,
        },
        None => crate::http::bare(INTERNAL_ERROR),
    }
}

/// The answer to a listing, from the listing written out as JSON.
pub fn json_answer(body: Option<Vec<u8>>) -> (r: Response)
    ensures
        r@ == json_response(
            match body {
                Some(text) => Some(text@),
                None => None,
            },
        ),
{
    match body {
        Some(text) => {
            let mut headers: Vec<Header> = Vec::new();
            headers.push(Header::json());
            let r = Response { status: OK, headers, body: text };
            assert(r@.headers =~= seq![(crate::http::content_type(), crate::http::json_type())]);
            r
        },
        None => Response::bare(INTERNAL_ERROR),
    }
}

/// The answer to a bucket listing: the status 200 and the body.
pub fn bucket_list_answer(entries: &[Entry], prefix: &[u8]) -> (r: Response)
    ensures
        r@ == (ResponseView {
            status: OK,
            headers: Seq::empty(),
            body: bucket_body(entry_views(entries@), prefix@),
        }),
{
    let r = Response { status: OK, headers: Vec::new(), body: bucket_list_body(entries, prefix) };
    assert(r@.headers =~= Seq::empty());
    r
}

impl ListError {
    /// The status that answers a listing that there is not: 413.
    pub fn status(&self) -> (status: u16)
        ensures
            status == crate::http::PAYLOAD_TOO_LARGE,
    {
        crate::http::PAYLOAD_TOO_LARGE
    }
}

impl ListMode {
    /// The state of the keys that a listing of this kind shows.
    pub fn state(&self) -> (state: Deleted)
        ensures
            state == (match *self {
                ListMode::Live => Deleted::No,
                ListMode::Unlinked => Deleted::Soft,
            }),
    {
        match self {
            ListMode::Live => Deleted::No,
            ListMode::Unlinked => Deleted::Soft,
        }
    }
}

} // verus!
