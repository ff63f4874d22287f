//! Uploads in parts.
//!
//! An upload is begun, its parts are staged in files, and it is completed by
//! putting the parts together and storing the result like any other body. The
//! coordinator remembers the uploads that were begun and not yet completed
//! or given up; it remembers them in memory only.

use crate::bytes::{ascii, copy_all, extend, has_prefix, literal, same, tail, to_vec, views};
use crate::encoding::{decimal, push_decimal};
use crate::http::{Response, ResponseView, BAD_REQUEST, FORBIDDEN, NO_CONTENT, OK};
use crate::record::{Deleted, Record, RecordView};
use crate::router::{
    is_digits, name_upload_id, operation, param, query_param, route, Operation,
};
use crate::trusted::{is_random_uuid_text, random_uuid_text};
use vstd::prelude::*;

verus! {

/// The uploads that were begun and neither completed nor given up.
pub struct UploadRegistry {
    ids: Vec<Vec<u8>>,
}

impl View for UploadRegistry {
    type V = Set<Seq<u8>>;

    closed spec fn view(&self) -> Set<Seq<u8>> {
        views(self.ids@).to_set()
    }
}

impl UploadRegistry {
    /// No upload is remembered twice.
    #[verifier::type_invariant]
    spec fn distinct(&self) -> bool {
        views(self.ids@).no_duplicates()
    }

    /// A registry without uploads.
    pub fn new() -> (r: UploadRegistry)
        ensures
            r@ == Set::<Seq<u8>>::empty(),
    {
        let r = UploadRegistry { ids: Vec::new() };
        assert(r@ =~= Set::<Seq<u8>>::empty());
        r
    }

    /// The place of the upload `id` among the known uploads, if it is known.
    fn position(&self, id: &[u8]) -> (r: Option<usize>)
        ensures
            match r {
                Some(i) => i < self.ids@.len() && self.ids@[i as int]@ == id@,
                None => !self@.contains(id@),
            },
    {
        let mut i: usize = 0;
        while i < self.ids.len()
            invariant
                i <= self.ids.len(),
                forall|j: int| 0 <= j < i ==> views(self.ids@)[j] != id@,
            decreases self.ids.len() - i,
        {
            if same(self.ids[i].as_slice(), id) {
                return Some(i);
            }
            assert(views(self.ids@)[i as int] == self.ids@[i as int]@);
            i += 1;
        }
        None
    }

    /// Whether the upload `id` is known.
    pub fn contains(&self, id: &[u8]) -> (r: bool)
        ensures
            r == self@.contains(id@),
    {
        match self.position(id) {
            Some(i) => {
                assert(views(self.ids@)[i as int] == id@);
                true
            },
            None => false,
        }
    }

    /// Remembers the upload `id`.
    pub fn register(&mut self, id: &[u8])
        ensures
            final(self)@ == old(self)@.insert(id@),
    {
        proof {
            use_type_invariant(&*self);
        }
        match self.position(id) {
            Some(i) => {
                assert(views(self.ids@)[i as int] == id@);
                assert(self@ =~= self@.insert(id@));
            },
            None => {
                let ghost before = views(self.ids@);
                let mut ids = copy_all(self.ids.as_slice());
                ids.push(to_vec(id));
                assert(views(ids@) =~= before.push(id@));
                *self = UploadRegistry { ids };
                assert(views(self.ids@).to_set() =~= before.to_set().insert(id@)) by {
                    assert forall|x: Seq<u8>| views(self.ids@).contains(x) <==> (before.contains(x)
                        || x == id@) by {
                        if before.contains(x) {
                            let k = choose|k: int| 0 <= k < before.len() && before[k] == x;
                            assert(views(self.ids@)[k] == x);
                        }
                        if x == id@ {
                            assert(views(self.ids@)[before.len() as int] == x);
                        }
                    }
                }
            },
        }
    }

    /// Forgets the upload `id`, and says whether it was known.
    pub fn remove(&mut self, id: &[u8]) -> (known: bool)
        ensures
            known == old(self)@.contains(id@),
            final(self)@ == old(self)@.remove(id@),
    {
        proof {
            use_type_invariant(&*self);
        }
        match self.position(id) {
            Some(i) => {
                let ghost before = views(self.ids@);
                assert(before[i as int] == id@);
                let mut ids = copy_all(self.ids.as_slice());
                assert(views(ids@).len() == ids@.len() && before.len() == self.ids@.len());
                ids.remove(i);
                let ghost after = views(ids@);
                assert(after =~= before.remove(i as int));
                *self = UploadRegistry { ids };
                assert(after.to_set() =~= before.to_set().remove(id@)) by {
                    assert forall|x: Seq<u8>| after.contains(x) <==> (before.contains(x) && x
                        != id@) by {
                        if after.contains(x) {
                            let k = choose|k: int| 0 <= k < after.len() && after[k] == x;
                            if k < i {
                                assert(before[k] == x);
                            } else {
                                assert(before[k + 1] == x);
                            }
                        }
                        if before.contains(x) && x != id@ {
                            let k = choose|k: int| 0 <= k < before.len() && before[k] == x;
                            if k < i {
                                assert(after[k] == x);
                            } else {
                                assert(after[k - 1] == x);
                            }
                        }
                    }
                }
                true
            },
            None => {
                assert(self@ =~= self@.remove(id@));
                false
            },
        }
    }
}

/// What answers the beginning of an upload: the identifier of the upload
/// between `<InitiateMultipartUploadResult><UploadId>` and the matching
/// closing tags.
pub open spec fn initiate_body(id: Seq<u8>) -> Seq<u8> {
    ascii("<InitiateMultipartUploadResult><UploadId>"@) + id + ascii(
        "</UploadId></InitiateMultipartUploadResult>"@,
    )
}

/// The name of the file in which a part of an upload is staged: the staging
/// directory, a slash, the identifier of the upload, a hyphen and the number
/// of the part.
pub open spec fn staged_name(dir: Seq<u8>, id: Seq<u8>, part: nat) -> Seq<u8> {
    dir + seq![0x2fu8] + id + seq![0x2du8] + decimal(part)
}

/// The name of the file in which a part of an upload is staged.
pub fn staging_name(dir: &[u8], id: &[u8], part: u64) -> (out: Vec<u8>)
    ensures
        out@ == staged_name(dir@, id@, part as nat),
{
    let mut out = to_vec(dir);
    out.push(0x2f);
    extend(&mut out, id);
    out.push(0x2d);
    push_decimal(&mut out, part);
    assert(out@ =~= staged_name(dir@, id@, part as nat));
    out
}

/// The names of the files in which the given parts of an upload are staged,
/// in the order of the parts.
pub fn staging_names(dir: &[u8], id: &[u8], parts: &[u64]) -> (out: Vec<Vec<u8>>)
    ensures
        out@.len() == parts@.len(),
        forall|i: int|
            0 <= i < out@.len() ==> (#[trigger] out@[i])@ == staged_name(dir@, id@, parts@[i] as nat),
{
    let mut out: Vec<Vec<u8>> = Vec::new();
    let mut i: usize = 0;
    while i < parts.len()
        invariant
            i <= parts.len(),
            out@.len() == i,
            forall|j: int|
                0 <= j < i ==> (#[trigger] out@[j])@ == staged_name(dir@, id@, parts@[j] as nat),
        decreases parts.len() - i,
    {
        out.push(staging_name(dir, id, parts[i]));
        i += 1;
    }
    out
}

/// Whether a file of the staging directory, given by its name in that
/// directory, holds a part of the upload `id`: its name is the identifier, a
/// hyphen and a number.
pub open spec fn is_part_of(file: Seq<u8>, id: Seq<u8>) -> bool {
    id.push(0x2du8).is_prefix_of(file) && is_digits(file.skip(id.len() as int + 1))
}

/// Whether a file of the staging directory holds a part of the upload `id`.
pub fn holds_part_of(file: &[u8], id: &[u8]) -> (r: bool)
    ensures
        r == is_part_of(file@, id@),
{
    let mut prefix = to_vec(id);
    prefix.push(0x2d);
    if !has_prefix(file, prefix.as_slice()) {
        return false;
    }
    let digits = tail(file, prefix.len());
    assert(digits@ == file@.skip(id@.len() as int + 1));
    if digits.len() == 0 {
        return false;
    }
    let mut i: usize = 0;
    while i < digits.len()
        invariant
            i <= digits.len(),
            digits@ == file@.skip(id@.len() as int + 1),
            forall|j: int| 0 <= j < i ==> 0x30 <= #[trigger] digits@[j] <= 0x39,
        decreases digits.len() - i,
    {
        if digits[i] < 0x30 || digits[i] > 0x39 {
            assert(!(0x30 <= digits@[i as int] <= 0x39));
            return false;
        }
        i += 1;
    }
    true
}

/// The parts of an upload one after the other.
pub open spec fn concat(parts: Seq<Seq<u8>>) -> Seq<u8>
    decreases parts.len(),
{
    if parts.len() == 0 {
        Seq::empty()
    } else {
        concat(parts.drop_last()) + parts.last()
    }
}

/// Puts the parts of an upload together, in the order given.
pub fn concat_parts(parts: &[Vec<u8>]) -> (out: Vec<u8>)
    ensures
        out@ == concat(views(parts@)),
{
    let mut out: Vec<u8> = Vec::new();
    let mut i: usize = 0;
    while i < parts.len()
        invariant
            i <= parts.len(),
            out@ == concat(views(parts@).take(i as int)),
        decreases parts.len() - i,
    {
        let ghost next = views(parts@).take(i + 1);
        assert(next.drop_last() =~= views(parts@).take(i as int));
        assert(next.last() == parts@[i as int]@);
        extend(&mut out, parts[i].as_slice());
        i += 1;
    }
    assert(views(parts@).take(parts.len() as int) =~= views(parts@));
    out
}

/// What a POST does first.
#[derive(Clone, PartialEq, Eq, Debug)]
pub enum PostPlan {
    /// The request is answered at once.
    Respond { response: Response },
    /// The keys that the body names are purged one after the other.
    BulkDelete,
    /// The parts that the body names are put together and stored.
    Complete { upload_id: Vec<u8> },
}

/// What a POST does first, as a mathematical value.
pub enum PostPlanView {
    Respond { response: ResponseView },
    BulkDelete,
    Complete { upload_id: Seq<u8> },
}

impl View for PostPlan {
    type V = PostPlanView;

    open spec fn view(&self) -> PostPlanView {
        match *self {
            PostPlan::Respond { response } => PostPlanView::Respond { response: response@ },
            PostPlan::BulkDelete => PostPlanView::BulkDelete,
            PostPlan::Complete { upload_id } => PostPlanView::Complete { upload_id: upload_id@ },
        }
    }
}

/// The identifier that a query string gives for an upload: the value of
/// `uploadId`, or nothing.
pub open spec fn upload_id_of(query: Seq<u8>) -> Seq<u8> {
    match param(query, name_upload_id()) {
        Some(id) => id,
        None => Seq::empty(),
    }
}

/// Whether a POST on a key with this record begins an upload.
pub open spec fn begins_upload(record: RecordView, query: Seq<u8>) -> bool {
    record.deleted != Deleted::No && operation(crate::http::Method::Post, query)
        == Operation::InitiateUpload
}

/// What a POST with the given query string does on a key with the given
/// record, and what it leaves of the known uploads. `fresh` is the
/// identifier that a new upload gets.
///
/// A live key takes no POST. An upload that is begun is remembered and
/// answered with its identifier. An upload that is completed must be known
/// and is forgotten.
pub open spec fn post_plan(
    record: RecordView,
    query: Seq<u8>,
    known: Set<Seq<u8>>,
    fresh: Seq<u8>,
) -> (PostPlanView, Set<Seq<u8>>) {
    if record.deleted == Deleted::No {
        (PostPlanView::Respond { response: crate::http::bare(FORBIDDEN) }, known)
    } else {
        match operation(crate::http::Method::Post, query) {
            Operation::InitiateUpload => (
                PostPlanView::Respond {
                    response: ResponseView {
                        status: OK,
                        headers: Seq::empty(),
                        body: initiate_body(fresh),
                    },
                },
                known.insert(fresh),
            ),
            Operation::BulkDelete => (PostPlanView::BulkDelete, known),
            Operation::CompleteUpload => if known.contains(upload_id_of(query)) {
                (
                    PostPlanView::Complete { upload_id: upload_id_of(query) },
                    known.remove(upload_id_of(query)),
                )
            } else {
                (PostPlanView::Respond { response: crate::http::bare(FORBIDDEN) }, known)
            },
            _ => (PostPlanView::Respond { response: crate::http::bare(BAD_REQUEST) }, known),
        }
    }
}

/// Plans a POST, with `fresh` as the identifier of the upload if one is begun.
pub fn plan_post_with(
    record: &Record,
    query: &[u8],
    registry: &mut UploadRegistry,
    fresh: &[u8],
) -> (plan: PostPlan)
    ensures
        (plan@, final(registry)@) == post_plan(record@, query@, old(registry)@, fresh@),
{
    if record.deleted == Deleted::No {
        return PostPlan::Respond { response: Response::bare(FORBIDDEN) };
    }
    match route(crate::http::Method::Post, query) {
        Operation::InitiateUpload => {
            proof {
                reveal_strlit("<InitiateMultipartUploadResult><UploadId>");
                reveal_strlit("</UploadId></InitiateMultipartUploadResult>");
            }
            registry.register(fresh);
            let mut body = to_vec(literal("<InitiateMultipartUploadResult><UploadId>"));
            extend(&mut body, fresh);
            extend(&mut body, literal("</UploadId></InitiateMultipartUploadResult>"));
            let response = Response { status: OK, headers: Vec::new(), body };
            assert(response@.headers =~= Seq::empty());
            PostPlan::Respond { response }
        },
        Operation::BulkDelete => PostPlan::BulkDelete,
        Operation::CompleteUpload => {
            proof {
                reveal_strlit("uploadId");
            }
            let id = match query_param(query, literal("uploadId")) {
                Some(id) => id,
                None => Vec::new(),
            };
            assert(id@ == upload_id_of(query@));
            if registry.remove(id.as_slice()) {
                PostPlan::Complete { upload_id: id }
            } else {
                assert(registry@ =~= old(registry)@);
                PostPlan::Respond { response: Response::bare(FORBIDDEN) }
            }
        },
        _ => PostPlan::Respond { response: Response::bare(BAD_REQUEST) },
    }
}

/// Plans a POST.
///
/// Where the request begins an upload, the upload gets a random identifier
/// of the shape of a UUID; whatever the identifier, the plan is the one that
/// `post_plan` gives for it. No other request depends on chance.
pub fn plan_post(record: &Record, query: &[u8], registry: &mut UploadRegistry) -> (plan: PostPlan)
    ensures
        exists|fresh: Seq<u8>|
            {
                &&& begins_upload(record@, query@) ==> is_random_uuid_text(fresh)
                &&& (plan@, final(registry)@) == #[trigger] post_plan(
                    record@,
                    query@,
                    old(registry)@,
                    fresh,
                )
            },
{
    let begins = match record.deleted {
        Deleted::No => false,
        _ => match route(crate::http::Method::Post, query) {
            Operation::InitiateUpload => true,
            _ => false,
        },
    };
    let fresh = if begins {
        random_uuid_text()
    } else {
        Vec::new()
    };
    let plan = plan_post_with(record, query, registry, fresh.as_slice());
    assert((plan@, registry@) == post_plan(record@, query@, old(registry)@, fresh@));
    plan
}

/// What giving up the upload that a query string names leaves of the known
/// uploads.
pub open spec fn after_abort(query: Seq<u8>, known: Set<Seq<u8>>) -> Set<Seq<u8>> {
    known.remove(upload_id_of(query))
}

/// What giving up an upload comes to.
#[derive(Clone, PartialEq, Eq, Debug)]
pub struct Abort {
    /// The upload that was given up; its staged parts are to be removed.
    pub upload_id: Vec<u8>,
    /// The status that answers the request: 204.
    pub status: u16,
}

/// Gives up the upload that the query string names: the upload is
/// forgotten, whether it was known or not, its identifier is handed back so
/// that its staged parts can be removed, and the request is answered with
/// 204.
pub fn abort_upload(query: &[u8], registry: &mut UploadRegistry) -> (abort: Abort)
    ensures
        abort.upload_id@ == upload_id_of(query@),
        abort.status == NO_CONTENT,
        final(registry)@ == after_abort(query@, old(registry)@),
{
    proof {
        reveal_strlit("uploadId");
    }
    let upload_id = match query_param(query, literal("uploadId")) {
        Some(id) => id,
        None => Vec::new(),
    };
    registry.remove(upload_id.as_slice());
    Abort { upload_id, status: NO_CONTENT }
}

/// Whether every staged part was found.
pub open spec fn all_found(parts: Seq<Option<Vec<u8>>>) -> bool {
    forall|i: int| 0 <= i < parts.len() ==> (#[trigger] parts[i]) is Some
}

/// The bodies of the staged parts that were found, in their order.
pub open spec fn found_parts(parts: Seq<Option<Vec<u8>>>) -> Seq<Seq<u8>> {
    Seq::new(
        parts.len(),
        |i: int|
            match parts[i] {
                Some(body) => body@,
                None => Seq::empty(),
            },
    )
}

/// The body that completes an upload from its staged parts, one entry for
/// each part that the request names, in the order given: the parts put
/// together, or the status 400 where a part was never staged.
pub open spec fn assembled(parts: Seq<Option<Vec<u8>>>) -> Result<Seq<u8>, u16> {
    if all_found(parts) {
        Ok(concat(found_parts(parts)))
    } else {
        Err(BAD_REQUEST)
    }
}

/// Puts the staged parts of an upload together, where all were found.
pub fn assemble(parts: &[Option<Vec<u8>>]) -> (r: Result<Vec<u8>, u16>)
    ensures
        match r {
            Ok(body) => assembled(parts@) == Ok::<Seq<u8>, u16>(body@),
            Err(status) => assembled(parts@) == Err::<Seq<u8>, u16>(status),
        },
{
    let mut out: Vec<u8> = Vec::new();
    let mut i: usize = 0;
    while i < parts.len()
        invariant
            i <= parts.len(),
            forall|j: int| 0 <= j < i ==> (#[trigger] parts@[j]) is Some,
            out@ == concat(found_parts(parts@).take(i as int)),
        decreases parts.len() - i,
    {
        let ghost next = found_parts(parts@).take(i + 1);
        assert(next.drop_last() =~= found_parts(parts@).take(i as int));
        match &parts[i] {
            Some(body) => {
                assert(next.last() == body@);
                extend(&mut out, body.as_slice());
            },
            None => {
                return Err(BAD_REQUEST);
            },
        }
        i += 1;
    }
    assert(found_parts(parts@).take(parts.len() as int) =~= found_parts(parts@));
    Ok(out)
}

/// The key that a bulk delete on `bucket` means by `name`: the bucket, a
/// slash, the name.
pub open spec fn bulk_key(bucket: Seq<u8>, name: Seq<u8>) -> Seq<u8> {
    bucket + seq![0x2fu8] + name
}

/// The key that a bulk delete on `bucket` means by `name`.
pub fn bulk_delete_key(bucket: &[u8], name: &[u8]) -> (out: Vec<u8>)
    ensures
        out@ == bulk_key(bucket@, name@),
{
    let mut out = to_vec(bucket);
    out.push(0x2f);
    extend(&mut out, name);
    out
}

/// What answers a bulk delete whose purges ended with the given statuses:
/// the first status that is not 204, or 204 if there is none.
pub open spec fn bulk_status(statuses: Seq<u16>) -> u16
    decreases statuses.len(),
{
    if statuses.len() == 0 {
        NO_CONTENT
    } else if statuses[0] != NO_CONTENT {
        statuses[0]
    } else {
        bulk_status(statuses.drop_first())
    }
}

/// Whether a bulk delete goes on after a purge that ended with `status`.
pub fn bulk_delete_goes_on(status: u16) -> (r: bool)
    ensures
        r == (status == NO_CONTENT),
{
    status == NO_CONTENT
}

/// What answers a bulk delete whose purges ended with the given statuses.
pub fn bulk_delete_status(statuses: &[u16]) -> (status: u16)
    ensures
        status == bulk_status(statuses@),
{
    let mut i: usize = 0;
    assert(statuses@.skip(0) =~= statuses@);
    while i < statuses.len()
        invariant
            i <= statuses.len(),
            bulk_status(statuses@) == bulk_status(statuses@.skip(i as int)),
        decreases statuses.len() - i,
    {
        assert(statuses@.skip(i as int)[0] == statuses@[i as int]);
        if !bulk_delete_goes_on(statuses[i]) {
            return statuses[i];
        }
        assert(statuses@.skip(i as int).drop_first() =~= statuses@.skip(i + 1));
        i += 1;
    }
    NO_CONTENT
}

} // verus!
