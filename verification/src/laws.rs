//! What holds of a key across the operations on it.
//!
//! Each statement here ties the plans and outcomes of several operations
//! together: what a write commits is what a read then looks for, what an
//! unlink leaves is what a listing of unlinked keys shows, and a row goes
//! away only when every volume has let go of the key.

use crate::bytes::{join, lemma_without, without};
use crate::config::ConfigView;
use crate::encoding::{hex, lemma_hex_shape};
use crate::http::{
    bare, content_length, content_md5, key_volumes, location, zero, BAD_REQUEST, CREATED,
    FORBIDDEN, FOUND, METHOD_NOT_ALLOWED, NOT_FOUND, NO_CONTENT, OK,
};
use crate::listing::{in_range, lemma_selected_keys, selected, shows, ListMode};
use crate::multipart::{post_plan, PostPlanView};
use crate::object::{
    candidates, first_present, is_first_present, is_order_of, lemma_first_present, order_names,
    read_outcome, read_plan, ReadPlanView,
};
use crate::placement::{key_fits, key_path, lemma_placement, placement};
use crate::record::{
    absent_view, decode, encode, lemma_decoded_wf, lemma_round_trip, lemma_row_of_decoded,
    Deleted, RecordError, RecordView, COMMA,
};
use crate::replication::{
    acked_at, all_acked, delete_plan, lemma_acknowledged, purge_outcome, purge_status,
    write_outcome, write_status, written, DeletePlanView, PurgeOutcome, WriteOutcomeView,
};
use crate::router::{admission, method_named, Operation};
use crate::trusted::md5_digest;
use crate::volume::{remote_of, remotes};
use vstd::prelude::*;

verus! {

/// A write is committed exactly when it is answered with 201, and then every
/// address of the key took the body and the row that goes to the index
/// stands for the record of the write: the volumes that should hold the key
/// and the hash of the body.
///
/// That the row can be read back rests on the digest of the body having
/// sixteen bytes, as every digest that was computed has.
pub proof fn lemma_committed_write(cfg: ConfigView, key: Seq<u8>, body: Seq<u8>, acks: Seq<bool>)
    requires
        cfg.wf(),
    ensures
        ({
            let record = written(cfg, key, body);
            let targets = remotes(cfg.desired(key), key);
            let outcome = write_outcome(cfg.replicas, targets, encode(record), acks);
            &&& record.volumes == placement(key, cfg.volumes, cfg.replicas, cfg.subvolumes)
            &&& record.hash == Some(hex(md5_digest(body)))
            &&& write_status(outcome) == CREATED <==> outcome is Commit
            &&& outcome is Commit <==> targets.len() == cfg.replicas && all_acked(
                acks,
                targets.len(),
            )
            &&& outcome matches WriteOutcomeView::Commit { row } ==> row == encode(record) && (
            md5_digest(body).len() == 16 ==> decode(row) == Ok::<RecordView, RecordError>(record))
        }),
{
    let record = written(cfg, key, body);
    let targets = remotes(cfg.desired(key), key);
    lemma_placement(key, cfg.volumes, cfg.replicas, cfg.subvolumes);
    lemma_acknowledged(acks, targets.len());
    if md5_digest(body).len() == 16 {
        lemma_hex_shape(md5_digest(body));
        lemma_round_trip(record);
    }
}

/// A read after a committed write looks for the key where it was written.
///
/// Whatever the order of the probes, the addresses that are probed are the
/// addresses that the body went to; the answer names the hash of the body and
/// the volumes of the key; and where one of the addresses answers, the
/// client is sent to one of them.
pub proof fn lemma_read_after_write(
    cfg: ConfigView,
    key: Seq<u8>,
    body: Seq<u8>,
    order: Seq<usize>,
    present: Seq<bool>,
)
    requires
        cfg.wf(),
        is_order_of(order, cfg.desired(key).len()),
    ensures
        ({
            let record = written(cfg, key, body);
            let targets = remotes(cfg.desired(key), key);
            let plan = read_plan(cfg, record, key, order);
            &&& targets.len() >= 1
            &&& plan matches ReadPlanView::Probe { headers, candidates } && {
                &&& headers == seq![
                    (content_md5(), hex(md5_digest(body))),
                    (key_volumes(), join(cfg.desired(key), COMMA)),
                ]
                &&& candidates.len() == targets.len()
                &&& forall|i: int|
                    0 <= i < candidates.len() ==> targets.contains(#[trigger] candidates[i])
                &&& forall|i: int|
                    0 <= i < targets.len() ==> candidates.contains(#[trigger] targets[i])
                &&& (exists|i: int| 0 <= i < candidates.len() && i < present.len() && present[i])
                    ==> {
                    let answer = read_outcome(headers, candidates, present);
                    &&& answer.status == FOUND
                    &&& exists|t: int|
                        0 <= t < targets.len() && answer.headers == headers.push(
                            (location(), #[trigger] targets[t]),
                        ).push((content_length(), zero()))
                }
            }
        }),
{
    let record = written(cfg, key, body);
    let targets = remotes(cfg.desired(key), key);
    lemma_placement(key, cfg.volumes, cfg.replicas, cfg.subvolumes);
    let found = candidates(record, key, order);
    let headers = crate::object::read_headers(cfg, record, key);
    assert(headers =~= seq![
        (content_md5(), hex(md5_digest(body))),
        (key_volumes(), join(cfg.desired(key), COMMA)),
    ]);
    assert forall|i: int| 0 <= i < found.len() implies targets.contains(#[trigger] found[i]) by {
        assert(targets[order[i] as int] == found[i]);
    }
    assert forall|i: int| 0 <= i < targets.len() implies found.contains(#[trigger] targets[i]) by {
        assert(order_names(order, i));
        let j = choose|j: int| 0 <= j < order.len() && order[j] == i;
        assert(found[j] == targets[i]);
    }
    if exists|i: int| 0 <= i < found.len() && i < present.len() && present[i] {
        let k = choose|i: int| 0 <= i < found.len() && i < present.len() && present[i];
        lemma_first_present(present, found.len(), k);
        let first = first_present(present, found.len())->Some_0;
        assert(is_first_present(present, found.len(), first));
        assert(targets[order[first] as int] == found[first]);
    }
}

/// Unlinking a live key is answered with 204 and leaves it unlinked: the row
/// that replaces its row stands for the same record in the unlinked state, a read of the key is
/// answered with 404, or with 302 to the key's path under the address for
/// unlinked keys where there is one, and a listing of unlinked keys whose
/// range holds the key shows it.
pub proof fn lemma_unlinked(
    cfg: ConfigView,
    key: Seq<u8>,
    row: Seq<u8>,
    order: Seq<usize>,
    entries: Seq<(Seq<u8>, Seq<u8>)>,
    prefix: Seq<u8>,
    start: Seq<u8>,
)
    requires
        decode(row) is Ok,
        decode(row)->Ok_0.deleted == Deleted::No,
    ensures
        ({
            let unlinked = decode(row)->Ok_0.with_state(Deleted::Soft);
            let plan = delete_plan(decode(row)->Ok_0, key, true);
            let answer = read_plan(cfg, unlinked, key, order);
            &&& plan matches DeletePlanView::Unlink { row: left, status } && {
                &&& status == NO_CONTENT
                &&& decode(left) == Ok::<RecordView, RecordError>(unlinked)
                &&& shows(ListMode::Unlinked, left)
                &&& !shows(ListMode::Live, left)
                &&& entries.contains((key, left)) && in_range(prefix, start, key) ==> selected(
                    entries,
                    ListMode::Unlinked,
                    prefix,
                    start,
                ).contains(key)
            }
            &&& answer matches ReadPlanView::Respond { response } && {
                &&& cfg.fallback.len() == 0 ==> response.status == NOT_FOUND
                &&& cfg.fallback.len() > 0 ==> response.status == FOUND
                    && response.headers.contains((location(), cfg.fallback + key_path(key)))
            }
            &&& delete_plan(unlinked, key, true) == (DeletePlanView::Reject { status: FORBIDDEN })
        }),
{
    let record = decode(row)->Ok_0;
    let unlinked = record.with_state(Deleted::Soft);
    let left = encode(unlinked);
    lemma_decoded_wf(row);
    lemma_row_of_decoded(row);
    lemma_round_trip(unlinked);
    if entries.contains((key, left)) && in_range(prefix, start, key) {
        let i = choose|i: int| 0 <= i < entries.len() && entries[i] == (key, left);
        assert(entries[i].0 == key && shows(ListMode::Unlinked, entries[i].1));
        lemma_selected_keys(entries, ListMode::Unlinked, prefix, start, key);
    }
    if cfg.fallback.len() > 0 {
        let headers = crate::object::hash_headers(unlinked);
        let to = cfg.fallback + key_path(key);
        let all = headers.push((location(), to)).push((content_length(), zero()));
        assert(all[headers.len() as int] == (location(), to));
    }
}

/// Deleting a key for good asks every volume of its record to let go of it,
/// and the row is removed, and the delete answered with 204, exactly when
/// every one of them did. A key without a row is not found by a read or by
/// a delete, and no listing shows it.
pub proof fn lemma_purged(
    cfg: ConfigView,
    record: RecordView,
    key: Seq<u8>,
    acks: Seq<bool>,
    order: Seq<usize>,
    entries: Seq<(Seq<u8>, Seq<u8>)>,
    mode: ListMode,
    prefix: Seq<u8>,
    start: Seq<u8>,
)
    requires
        record.deleted != Deleted::Hard,
    ensures
        ({
            let plan = delete_plan(record, key, false);
            &&& plan matches DeletePlanView::Purge { targets } && {
                &&& targets.len() == record.volumes.len()
                &&& forall|i: int|
                    0 <= i < targets.len() ==> #[trigger] targets[i] == remote_of(
                        record.volumes[i],
                        key_path(key),
                    )
                &&& purge_outcome(targets.len(), acks) == PurgeOutcome::Remove <==> forall|i: int|
                    0 <= i < record.volumes.len() ==> acked_at(acks, i)
                &&& purge_status(purge_outcome(targets.len(), acks)) == NO_CONTENT
                    <==> purge_outcome(targets.len(), acks) == PurgeOutcome::Remove
            }
            &&& read_plan(cfg, absent_view(), key, order) == (ReadPlanView::Respond {
                response: bare(NOT_FOUND),
            })
            &&& forall|unlink: bool|
                #[trigger] delete_plan(absent_view(), key, unlink) == (DeletePlanView::Reject {
                    status: NOT_FOUND,
                })
            &&& (forall|i: int| 0 <= i < entries.len() ==> (#[trigger] entries[i]).0 != key)
                ==> !selected(entries, mode, prefix, start).contains(key)
        }),
{
    lemma_selected_keys(entries, mode, prefix, start, key);
}

/// A move brings the key to every volume that should hold it: such a
/// volume holds it already or gets a copy. Nothing is copied to a volume that
/// holds the key or should not hold it, and the key is deleted only from
/// volumes that hold it and should not.
pub proof fn lemma_moved(cfg: ConfigView, record: RecordView, key: Seq<u8>)
    ensures
        ({
            let desired = cfg.desired(key);
            let copies = without(desired, record.volumes);
            let drops = without(record.volumes, desired);
            &&& forall|v: Seq<u8>|
                desired.contains(v) ==> record.volumes.contains(v) || copies.contains(v)
            &&& forall|v: Seq<u8>|
                copies.contains(v) ==> desired.contains(v) && !record.volumes.contains(v)
            &&& forall|v: Seq<u8>|
                drops.contains(v) ==> record.volumes.contains(v) && !desired.contains(v)
        }),
{
    lemma_without(cfg.desired(key), record.volumes);
    lemma_without(record.volumes, cfg.desired(key));
}

/// A POST that is refused changes nothing: where it is answered at once
/// and with another status than 200, the known uploads are as they were.
pub proof fn lemma_refused_post(
    record: RecordView,
    query: Seq<u8>,
    known: Set<Seq<u8>>,
    fresh: Seq<u8>,
)
    ensures
        post_plan(record, query, known, fresh).0 matches PostPlanView::Respond { response }
            && response.status != OK ==> post_plan(record, query, known, fresh).1 == known,
{
}

/// A request that is refused before it is carried out is answered with 400
/// or 405: with 405 for a method that is not answered, else with 400, for a
/// key that is too long or a GET whose query names nothing that can be
/// asked. A request that is not refused has a key whose path can be written.
pub proof fn lemma_screened(method: Seq<u8>, key: Seq<u8>, query: Seq<u8>)
    ensures
        match admission(method, key, query) {
            Operation::Refuse { status } => if method_named(method) is None {
                status == METHOD_NOT_ALLOWED
            } else {
                status == BAD_REQUEST
            },
            _ => key_fits(key) && method_named(method) is Some,
        },
{
}

} // verus!
