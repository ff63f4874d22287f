//! Reading and writing single objects.
//!
//! A read never touches an object's bytes: the client is redirected to a
//! volume that holds them. Which of the volumes of a record is asked first is
//! left to chance; the first that answers wins.

use crate::bytes::{extend, join, join_with, literal, to_vec, views};
use crate::config::{Config, ConfigView};
use crate::http::{
    bare, header_views, Header, Response, ResponseView, BAD_REQUEST, FORBIDDEN, FOUND,
    INTERNAL_ERROR, LENGTH_REQUIRED, NOT_FOUND, OK, UNAUTHORIZED,
};
use crate::multipart::{upload_id_of, UploadRegistry};
use crate::placement::{key2path, key2volume, key_fits, key_path, needs_rebalance};
use crate::record::{Deleted, Record, RecordView, COMMA};
use crate::router::{name_part_number, number, param, parse_number, query_param};
use crate::trusted::in_random_order;
use crate::volume::{remote_of, remote_url};
use vstd::prelude::*;

verus! {

/// The header that carries the hash of a record, if it has one.
pub open spec fn hash_headers(record: RecordView) -> Seq<(Seq<u8>, Seq<u8>)> {
    match record.hash {
        Some(hash) => seq![(crate::http::content_md5(), hash)],
        None => Seq::empty(),
    }
}

/// The header that says where a live key is: its volumes, if they are the
/// ones that should hold it, else that it is unbalanced.
pub open spec fn balance_header(cfg: ConfigView, record: RecordView, key: Seq<u8>) -> (
    Seq<u8>,
    Seq<u8>,
) {
    if record.volumes != cfg.desired(key) {
        (crate::http::key_balance(), crate::http::unbalanced())
    } else {
        (crate::http::key_volumes(), join(record.volumes, COMMA))
    }
}

/// The headers of the answer to a read of a live key.
pub open spec fn read_headers(cfg: ConfigView, record: RecordView, key: Seq<u8>) -> Seq<
    (Seq<u8>, Seq<u8>),
> {
    hash_headers(record).push(balance_header(cfg, record, key))
}

/// The answer that sends the client to `to`.
pub open spec fn redirect(headers: Seq<(Seq<u8>, Seq<u8>)>, to: Seq<u8>) -> ResponseView {
    ResponseView {
        status: FOUND,
        headers: headers.push((crate::http::location(), to)).push(
            (crate::http::content_length(), crate::http::zero()),
        ),
        body: Seq::empty(),
    }
}

/// The answer that the key is not there.
pub open spec fn not_found(headers: Seq<(Seq<u8>, Seq<u8>)>) -> ResponseView {
    ResponseView { status: NOT_FOUND, headers, body: Seq::empty() }
}

/// The addresses of a key on the volumes of its record, taken in the given
/// order.
pub open spec fn candidates(record: RecordView, key: Seq<u8>, order: Seq<usize>) -> Seq<Seq<u8>> {
    Seq::new(order.len(), |i: int| remote_of(record.volumes[order[i] as int], key_path(key)))
}

/// What a read does first.
#[derive(Clone, PartialEq, Eq, Debug)]
pub enum ReadPlan {
    /// The request is answered at once.
    Respond { response: Response },
    /// The addresses are probed one after the other; the answer carries
    /// the headers.
    Probe { headers: Vec<Header>, candidates: Vec<Vec<u8>> },
}

/// What a read does first, as a mathematical value.
pub enum ReadPlanView {
    Respond { response: ResponseView },
    Probe { headers: Seq<(Seq<u8>, Seq<u8>)>, candidates: Seq<Seq<u8>> },
}

impl View for ReadPlan {
    type V = ReadPlanView;

    open spec fn view(&self) -> ReadPlanView {
        match *self {
            ReadPlan::Respond { response } => ReadPlanView::Respond { response: response@ },
            ReadPlan::Probe { headers, candidates } => ReadPlanView::Probe {
                headers: header_views(headers@),
                candidates: views(candidates@),
            },
        }
    }
}

/// What a read of a key with the given record does first, where the volumes
/// of a live record are to be probed in the given order.
///
/// A key without a row is not found. An unlinked key is not found either,
/// unless readers of unlinked keys are sent elsewhere. A live key is looked
/// for on its volumes.
pub open spec fn read_plan(
    cfg: ConfigView,
    record: RecordView,
    key: Seq<u8>,
    order: Seq<usize>,
) -> ReadPlanView {
    match record.deleted {
        Deleted::Hard => ReadPlanView::Respond { response: bare(NOT_FOUND) },
        Deleted::Soft => if cfg.fallback.len() == 0 {
            ReadPlanView::Respond { response: not_found(hash_headers(record)) }
        } else {
            ReadPlanView::Respond {
                response: redirect(hash_headers(record), cfg.fallback + key_path(key)),
            }
        },
        Deleted::No => ReadPlanView::Probe {
            headers: read_headers(cfg, record, key),
            candidates: candidates(record, key, order),
        },
    }
}

/// Whether `order` names the position `v`.
pub open spec fn order_names(order: Seq<usize>, v: int) -> bool {
    exists|j: int| 0 <= j < order.len() && order[j] == v
}

/// Whether `order` names every one of `n` volumes and nothing else.
pub open spec fn is_order_of(order: Seq<usize>, n: nat) -> bool {
    &&& order.len() == n
    &&& forall|i: int| 0 <= i < order.len() ==> (#[trigger] order[i]) < n
    &&& forall|v: int| 0 <= v < n ==> #[trigger] order_names(order, v)
}

/// The header that carries the hash of a record, if it has one.
fn hash_header_list(record: &Record) -> (out: Vec<Header>)
    ensures
        header_views(out@) == hash_headers(record@),
{
    let mut out: Vec<Header> = Vec::new();
    match &record.hash {
        Some(hash) => {
            out.push(Header::content_md5(hash.as_slice()));
        },
        None => {},
    }
    assert(header_views(out@) =~= hash_headers(record@));
    out
}

/// The answer that sends the client to `to`.
fn redirect_to(headers: Vec<Header>, to: &[u8]) -> (r: Response)
    ensures
        r@ == redirect(header_views(headers@), to@),
{
    let ghost before = header_views(headers@);
    let mut headers = headers;
    headers.push(Header::location(to));
    headers.push(Header::no_content());
    let r = Response { status: FOUND, headers, body: Vec::new() };
    assert(r@.headers =~= before.push((crate::http::location(), to@)).push(
        (crate::http::content_length(), crate::http::zero()),
    ));
    r
}

/// Plans a read, with the volumes of a live record probed in the given order.
pub fn plan_read_with(cfg: &Config, record: &Record, key: &[u8], order: &[usize]) -> (plan:
    ReadPlan)
    requires
        cfg.subvolumes >= 1,
        key_fits(key@),
        forall|i: int| 0 <= i < order@.len() ==> (#[trigger] order@[i]) < record.volumes@.len(),
    ensures
        plan@ == read_plan(cfg@, record@, key@, order@),
{
    match record.deleted {
        Deleted::Hard => ReadPlan::Respond { response: Response::bare(NOT_FOUND) },
        Deleted::Soft => {
            let headers = hash_header_list(record);
            if cfg.fallback.len() == 0 {
                ReadPlan::Respond {
                    response: Response { status: NOT_FOUND, headers, body: Vec::new() },
                }
            } else {
                let mut to = to_vec(cfg.fallback.as_slice());
                extend(&mut to, key2path(key).as_slice());
                ReadPlan::Respond { response: redirect_to(headers, to.as_slice()) }
            }
        },
        Deleted::No => {
            let mut headers = hash_header_list(record);
            let desired = key2volume(key, cfg.volumes.as_slice(), cfg.replicas, cfg.subvolumes);
            let ghost before = header_views(headers@);
            if needs_rebalance(record.volumes.as_slice(), desired.as_slice()) {
                headers.push(Header::unbalanced());
            } else {
                let list = join_with(record.volumes.as_slice(), COMMA);
                headers.push(Header::key_volumes(list.as_slice()));
            }
            assert(header_views(headers@) =~= before.push(balance_header(cfg@, record@, key@)));
            let path = key2path(key);
            let mut found: Vec<Vec<u8>> = Vec::new();
            let mut i: usize = 0;
            while i < order.len()
                invariant
                    i <= order.len(),
                    path@ == key_path(key@),
                    forall|k: int|
                        0 <= k < order@.len() ==> (#[trigger] order@[k]) < record.volumes@.len(),
                    found@.len() == i,
                    forall|k: int|
                        0 <= k < i ==> (#[trigger] found@[k])@ == remote_of(
                            record@.volumes[order@[k] as int],
                            key_path(key@),
                        ),
                decreases order.len() - i,
            {
                let at = order[i];
                assert(order@[i as int] < record.volumes@.len());
                found.push(remote_url(record.volumes[at].as_slice(), path.as_slice()));
                i += 1;
            }
            assert(views(found@) =~= candidates(record@, key@, order@));
            ReadPlan::Probe { headers, candidates: found }
        },
    }
}

/// The positions `0` to `n - 1`.
fn positions(n: usize) -> (out: Vec<usize>)
    ensures
        out@.len() == n,
        forall|i: int| 0 <= i < n ==> out@[i] == i,
{
    let mut out: Vec<usize> = Vec::new();
    while out.len() < n
        invariant
            out@.len() <= n,
            forall|i: int| 0 <= i < out@.len() ==> out@[i] == i,
        decreases n - out@.len(),
    {
        let next = out.len();
        out.push(next);
    }
    out
}

/// A list that holds the positions `0` to `n - 1`, each as often as the list
/// of these positions does, names every one of them and nothing else.
proof fn lemma_same_items(order: Seq<usize>, straight: Seq<usize>, n: nat)
    requires
        straight.len() == n,
        forall|i: int| 0 <= i < n ==> straight[i] == i,
        order.to_multiset() == straight.to_multiset(),
    ensures
        is_order_of(order, n),
{
    vstd::seq_lib::to_multiset_len(order);
    vstd::seq_lib::to_multiset_len(straight);
    assert forall|i: int| 0 <= i < order.len() implies (#[trigger] order[i]) < n by {
        vstd::seq_lib::to_multiset_contains(order, order[i]);
        vstd::seq_lib::to_multiset_contains(straight, order[i]);
        assert(order.contains(order[i]));
        let j = choose|j: int| 0 <= j < straight.len() && straight[j] == order[i];
        assert(straight[j] == j);
    }
    assert forall|v: int| 0 <= v < n implies #[trigger] order_names(order, v) by {
        let item = straight[v];
        assert(straight.contains(item));
        vstd::seq_lib::to_multiset_contains(order, item);
        vstd::seq_lib::to_multiset_contains(straight, item);
        let j = choose|j: int| 0 <= j < order.len() && order[j] == item;
        assert(order[j] == v);
    }
}

/// The most volumes that are put in an order left to chance; a record that
/// names more is probed in the order of its volumes.
pub const MOST_SHUFFLED: usize = 0xffff_ffff;

/// Plans a read.
///
/// The volumes of a live record are probed in an order left to chance;
/// whatever the order, it names every volume of the record, and the plan is
/// the one that `read_plan` gives for it. No other read depends on chance.
pub fn plan_read(cfg: &Config, record: &Record, key: &[u8]) -> (plan: ReadPlan)
    requires
        cfg.subvolumes >= 1,
        key_fits(key@),
    ensures
        exists|order: Seq<usize>|
            {
                &&& is_order_of(order, record.volumes@.len() as nat)
                &&& plan@ == #[trigger] read_plan(cfg@, record@, key@, order)
            },
{
    let straight = positions(record.volumes.len());
    let ghost plain = straight@;
    let order = match record.deleted {
        Deleted::No => if straight.len() <= MOST_SHUFFLED {
            in_random_order(straight.as_slice())
        } else {
            straight
        },
        _ => straight,
    };
    proof {
        lemma_same_items(order@, plain, record.volumes@.len() as nat);
    }
    let plan = plan_read_with(cfg, record, key, order.as_slice());
    assert(plan@ == read_plan(cfg@, record@, key@, order@));
    plan
}

/// What a read does next while it probes.
#[derive(Clone, PartialEq, Eq, Debug)]
pub enum ReadStep {
    /// The address at this position of the plan is probed.
    Probe { at: usize },
    /// The request is answered.
    Respond { response: Response },
}

/// What a read does next while it probes, as a mathematical value.
pub enum ReadStepView {
    Probe { at: int },
    Respond { response: ResponseView },
}

impl View for ReadStep {
    type V = ReadStepView;

    open spec fn view(&self) -> ReadStepView {
        match *self {
            ReadStep::Probe { at } => ReadStepView::Probe { at: at as int },
            ReadStep::Respond { response } => ReadStepView::Respond { response: response@ },
        }
    }
}

/// How a plan begins: a ready answer is given, the first address is probed,
/// and a key without addresses is not found.
pub open spec fn first_step(plan: ReadPlanView) -> ReadStepView {
    match plan {
        ReadPlanView::Respond { response } => ReadStepView::Respond { response },
        ReadPlanView::Probe { headers, candidates } => if candidates.len() == 0 {
            ReadStepView::Respond { response: not_found(headers) }
        } else {
            ReadStepView::Probe { at: 0 }
        },
    }
}

/// How a plan goes on after the probe of the address at `at`: the client
/// is sent to an address that answered; else the next address is probed, and
/// after the last one the key is not found.
pub open spec fn next_step(
    headers: Seq<(Seq<u8>, Seq<u8>)>,
    candidates: Seq<Seq<u8>>,
    at: int,
    present: bool,
) -> ReadStepView {
    if present {
        ReadStepView::Respond { response: redirect(headers, candidates[at]) }
    } else if at + 1 < candidates.len() {
        ReadStepView::Probe { at: at + 1 }
    } else {
        ReadStepView::Respond { response: not_found(headers) }
    }
}

/// How a read goes on after the probe of the address at `at`, whatever the
/// plan: a ready answer stays, a plan that probes goes on as `next_step`
/// says, and a position that the plan does not have ends the read with the
/// key not found.
pub open spec fn step_after(plan: ReadPlanView, at: int, present: bool) -> ReadStepView {
    match plan {
        ReadPlanView::Respond { response } => ReadStepView::Respond { response },
        ReadPlanView::Probe { headers, candidates } => if 0 <= at < candidates.len() {
            next_step(headers, candidates, at, present)
        } else {
            ReadStepView::Respond { response: not_found(headers) }
        },
    }
}

/// The position of the first address that answers, if any does.
pub open spec fn first_present(present: Seq<bool>, n: nat) -> Option<int> {
    if exists|i: int| is_first_present(present, n, i) {
        Some(choose|i: int| is_first_present(present, n, i))
    } else {
        None
    }
}

/// Whether the address at `i` answers and none before it does. An address of
/// which nothing is known does not answer.
pub open spec fn is_first_present(present: Seq<bool>, n: nat, i: int) -> bool {
    &&& 0 <= i < n
    &&& i < present.len()
    &&& present[i]
    &&& forall|j: int| 0 <= j < i ==> !(#[trigger] present[j])
}

/// The answer to a read that probes the given addresses: the client is sent
/// to the first address that answers, and the key is not found if none does.
pub open spec fn read_outcome(
    headers: Seq<(Seq<u8>, Seq<u8>)>,
    candidates: Seq<Seq<u8>>,
    present: Seq<bool>,
) -> ResponseView {
    match first_present(present, candidates.len()) {
        Some(i) => redirect(headers, candidates[i]),
        None => not_found(headers),
    }
}

/// Where some address answers, there is a first one that does.
pub proof fn lemma_first_present(present: Seq<bool>, n: nat, k: int)
    requires
        0 <= k < n,
        k < present.len(),
        present[k],
    ensures
        first_present(present, n) matches Some(i) && is_first_present(present, n, i) && i <= k,
    decreases k,
{
    if exists|j: int| 0 <= j < k && present[j] {
        let j = choose|j: int| 0 <= j < k && present[j];
        lemma_first_present(present, n, j);
    } else {
        assert(is_first_present(present, n, k));
        let i = choose|i: int| is_first_present(present, n, i);
        if k < i {
            assert(!present[k]);
        }
    }
}

/// A copy of the headers.
fn copy_headers(headers: &Vec<Header>) -> (out: Vec<Header>)
    ensures
        header_views(out@) == header_views(headers@),
{
    let mut out: Vec<Header> = Vec::new();
    let mut i: usize = 0;
    while i < headers.len()
        invariant
            i <= headers.len(),
            out@.len() == i,
            forall|j: int| 0 <= j < i ==> (#[trigger] out@[j])@ == headers@[j]@,
        decreases headers.len() - i,
    {
        out.push(Header::new(headers[i].name.as_slice(), headers[i].value.as_slice()));
        i += 1;
    }
    assert(header_views(out@) =~= header_views(headers@));
    out
}

/// A copy of the answer.
fn copy_response(response: &Response) -> (out: Response)
    ensures
        out@ == response@,
{
    Response {
        status: response.status,
        headers: copy_headers(&response.headers),
        body: to_vec(response.body.as_slice()),
    }
}

impl ReadPlan {
    /// What the read does first.
    pub fn begin(&self) -> (step: ReadStep)
        ensures
            step@ == first_step(self@),
    {
        match self {
            ReadPlan::Respond { response } => ReadStep::Respond {
                response: copy_response(response),
            },
            ReadPlan::Probe { headers, candidates } => {
                if candidates.len() == 0 {
                    ReadStep::Respond {
                        response: Response {
                            status: NOT_FOUND,
                            headers: copy_headers(headers),
                            body: Vec::new(),
                        },
                    }
                } else {
                    ReadStep::Probe { at: 0 }
                }
            },
        }
    }

    /// The address that is probed at position `at` of the plan, if the plan
    /// probes and has such a position.
    pub fn candidate(&self, at: usize) -> (r: Option<Vec<u8>>)
        ensures
            r matches Some(address) ==> self@ matches ReadPlanView::Probe { candidates, .. } && at
                < candidates.len() && address@ == candidates[at as int],
            r is None ==> !(self@ matches ReadPlanView::Probe { candidates, .. } && at
                < candidates.len()),
    {
        match self {
            ReadPlan::Respond { .. } => None,
            ReadPlan::Probe { candidates, .. } => {
                assert(views(candidates@).len() == candidates@.len());
                if at < candidates.len() {
                    assert(views(candidates@)[at as int] == candidates@[at as int]@);
                    Some(to_vec(candidates[at].as_slice()))
                } else {
                    None
                }
            },
        }
    }

    /// What the read does after the probe of the address at `at`, which
    /// answered or did not.
    pub fn after_probe(&self, at: usize, present: bool) -> (step: ReadStep)
        ensures
            step@ == step_after(self@, at as int, present),
    {
        match self {
            ReadPlan::Respond { response } => ReadStep::Respond {
                response: copy_response(response),
            },
            ReadPlan::Probe { headers, candidates } => {
                assert(views(candidates@).len() == candidates@.len());
                if at < candidates.len() && present {
                    ReadStep::Respond {
                        response: redirect_to(copy_headers(headers), candidates[at].as_slice()),
                    }
                } else if at < candidates.len() && at < candidates.len() - 1 {
                    ReadStep::Probe { at: at + 1 }
                } else {
                    ReadStep::Respond {
                        response: Response {
                            status: NOT_FOUND,
                            headers: copy_headers(headers),
                            body: Vec::new(),
                        },
                    }
                }
            },
        }
    }

    /// The answer to a read whose probes end as `present` says, one entry
    /// for each address in the order of the plan: what following the plan
    /// step by step comes to.
    pub fn resolve(&self, present: &[bool]) -> (response: Response)
        ensures
            match self@ {
                ReadPlanView::Respond { response: ready } => response@ == ready,
                ReadPlanView::Probe { headers, candidates } => response@ == read_outcome(
                    headers,
                    candidates,
                    present@,
                ),
            },
    {
        let mut step = self.begin();
        loop
            invariant
                match step@ {
                    ReadStepView::Respond { response: ready } => match self@ {
                        ReadPlanView::Respond { response: given } => ready == given,
                        ReadPlanView::Probe { headers, candidates } => ready == read_outcome(
                            headers,
                            candidates,
                            present@,
                        ),
                    },
                    ReadStepView::Probe { at } => self@ matches ReadPlanView::Probe {
                        candidates,
                        ..
                    } && at < candidates.len() && forall|j: int|
                        0 <= j < at && j < present@.len() ==> !(#[trigger] present@[j]),
                },
            decreases
                    match step@ {
                        ReadStepView::Respond { .. } => 0int,
                        ReadStepView::Probe { at } => match self@ {
                            ReadPlanView::Probe { candidates, .. } => candidates.len() - at + 1,
                            ReadPlanView::Respond { .. } => 1int,
                        },
                    },
        {
            match step {
                ReadStep::Respond { response } => {
                    return response;
                },
                ReadStep::Probe { at } => {
                    let answered = at < present.len() && present[at];
                    proof {
                        lemma_probe(self@, present@, at, answered);
                    }
                    step = self.after_probe(at, answered);
                },
            }
        }
    }
}

/// One step of probing keeps to the answer that the probes come to.
proof fn lemma_probe(plan: ReadPlanView, present: Seq<bool>, at: usize, answered: bool)
    requires
        plan matches ReadPlanView::Probe { candidates, .. } && at < candidates.len(),
        answered == (at < present.len() && present[at as int]),
        forall|j: int| 0 <= j < at && j < present.len() ==> !(#[trigger] present[j]),
    ensures
        plan matches ReadPlanView::Probe { headers, candidates } && (match next_step(
            headers,
            candidates,
            at as int,
            answered,
        ) {
            ReadStepView::Respond { response } => response == read_outcome(
                headers,
                candidates,
                present,
            ),
            ReadStepView::Probe { at: next } => next == at + 1 && next < candidates.len(),
        }),
{
    match plan {
        ReadPlanView::Probe { headers, candidates } => {
            let n = candidates.len();
            if answered {
                assert(is_first_present(present, n, at as int));
                let chosen = choose|i: int| is_first_present(present, n, i);
                assert(is_first_present(present, n, chosen));
                if chosen < at {
                    assert(!present[chosen]);
                } else if at < chosen {
                    assert(!present[at as int]);
                }
            } else if at + 1 >= n {
                if exists|i: int| is_first_present(present, n, i) {
                    let i = choose|i: int| is_first_present(present, n, i);
                    assert(is_first_present(present, n, i));
                    if i < at {
                        assert(!present[i]);
                    }
                }
            }
        },
        ReadPlanView::Respond { .. } => {},
    }
}

/// What a PUT does first.
#[derive(Clone, PartialEq, Eq, Debug)]
pub enum PutPlan {
    /// Nothing is stored; the client is told why.
    Reject { status: u16 },
    /// The body is staged as a part of an upload.
    StorePart { upload_id: Vec<u8>, part: usize },
    /// The body is stored under the key.
    Store,
}

/// What a PUT does first, as a mathematical value.
pub enum PutPlanView {
    Reject { status: u16 },
    StorePart { upload_id: Seq<u8>, part: usize },
    Store,
}

impl View for PutPlan {
    type V = PutPlanView;

    open spec fn view(&self) -> PutPlanView {
        match *self {
            PutPlan::Reject { status } => PutPlanView::Reject { status },
            PutPlan::StorePart { upload_id, part } => PutPlanView::StorePart {
                upload_id: upload_id@,
                part,
            },
            PutPlan::Store => PutPlanView::Store,
        }
    }
}

/// What a PUT does on a key with the given record.
///
/// A request that names a part number is a part of an upload: it is refused
/// with 403 on a live key and for an upload that is not known, and with 400
/// where the part number is no number. Any other request stores the body
/// under the key: the body must have a length that is known and not zero,
/// else the answer is 411, and a live key is not written over, which is
/// answered with 401.
pub open spec fn put_plan(
    content_length: Option<u64>,
    record: RecordView,
    query: Seq<u8>,
    known: Set<Seq<u8>>,
) -> PutPlanView {
    match param(query, name_part_number()) {
        Some(text) => if record.deleted == Deleted::No || !known.contains(upload_id_of(query)) {
            PutPlanView::Reject { status: FORBIDDEN }
        } else {
            match number(text) {
                Some(part) => PutPlanView::StorePart { upload_id: upload_id_of(query), part },
                None => PutPlanView::Reject { status: BAD_REQUEST },
            }
        },
        None => if content_length is None || content_length == Some(0u64) {
            PutPlanView::Reject { status: LENGTH_REQUIRED }
        } else if record.deleted == Deleted::No {
            PutPlanView::Reject { status: UNAUTHORIZED }
        } else {
            PutPlanView::Store
        },
    }
}

/// Plans a PUT. `content_length` is what the request says of the length of
/// its body, if it says anything.
pub fn plan_put(
    content_length: Option<u64>,
    record: &Record,
    query: &[u8],
    registry: &UploadRegistry,
) -> (plan: PutPlan)
    ensures
        plan@ == put_plan(content_length, record@, query@, registry@),
{
    proof {
        reveal_strlit("partNumber");
        reveal_strlit("uploadId");
    }
    match query_param(query, literal("partNumber")) {
        Some(text) => {
            let upload_id = match query_param(query, literal("uploadId")) {
                Some(id) => id,
                None => Vec::new(),
            };
            assert(upload_id@ == upload_id_of(query@));
            if record.deleted == Deleted::No || !registry.contains(upload_id.as_slice()) {
                return PutPlan::Reject { status: FORBIDDEN };
            }
            match parse_number(text.as_slice()) {
                Some(part) => PutPlan::StorePart { upload_id, part },
                None => PutPlan::Reject { status: BAD_REQUEST },
            }
        },
        None => {
            let sized = match content_length {
                Some(length) => length != 0,
                None => false,
            };
            if !sized {
                PutPlan::Reject { status: LENGTH_REQUIRED }
            } else if record.deleted == Deleted::No {
                PutPlan::Reject { status: UNAUTHORIZED }
            } else {
                PutPlan::Store
            }
        },
    }
}

/// The status that answers a part of an upload once its body is staged:
/// 200, or 500 where the staging file could not be written.
pub open spec fn part_status(staged: bool) -> u16 {
    if staged {
        OK
    } else {
        INTERNAL_ERROR
    }
}

/// The status that answers a part of an upload, whose body was staged or
/// could not be.
pub fn part_stored(staged: bool) -> (status: u16)
    ensures
        status == part_status(staged),
{
    if staged {
        OK
    } else {
        INTERNAL_ERROR
    }
}

} // verus!
