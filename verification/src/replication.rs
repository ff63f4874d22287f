//! Writing to and deleting from all replicas of a key.
//!
//! The caller talks to the volumes; this module says whom to talk to and
//! what follows from the answers. The index is written only after every
//! replica has acknowledged, a write that some replica refused is undone on
//! the replicas that took it, and a row is removed only after every volume
//! that it names has let go of the key.

use crate::bytes::{copy_all, difference, to_vec, views, without};
use crate::config::{Config, ConfigView};
use crate::encoding::{hex, lemma_hex_shape, to_hex};
use crate::http::{CREATED, FORBIDDEN, INTERNAL_ERROR, NOT_FOUND, NO_CONTENT};
use crate::placement::{
    fanout, key2path, key2volume, key_fits, lemma_placement, needs_rebalance,
};
use crate::record::{decode, encode, lemma_round_trip, Deleted, Record, RecordError, RecordView};
use crate::trusted::{md5_digest, md5_of};
use crate::volume::{remote_urls, remotes};
use vstd::prelude::*;

verus! {

/// Whether the target at `i` acknowledged. A target of which nothing is
/// known has not.
pub open spec fn acked_at(acks: Seq<bool>, i: int) -> bool {
    0 <= i < acks.len() && acks[i]
}

/// How many of the first `n` targets acknowledged.
pub open spec fn acknowledged(acks: Seq<bool>, n: nat) -> nat
    decreases n,
{
    if n == 0 {
        0
    } else if acked_at(acks, n - 1) {
        acknowledged(acks, (n - 1) as nat) + 1
    } else {
        acknowledged(acks, (n - 1) as nat)
    }
}

/// Whether each of the first `n` targets acknowledged.
pub open spec fn all_acked(acks: Seq<bool>, n: nat) -> bool {
    forall|i: int| 0 <= i < n ==> acked_at(acks, i)
}

/// The targets that acknowledged, in their order.
pub open spec fn those_acked(targets: Seq<Seq<u8>>, acks: Seq<bool>) -> Seq<Seq<u8>>
    decreases targets.len(),
{
    if targets.len() == 0 {
        Seq::empty()
    } else if acked_at(acks, targets.len() - 1) {
        those_acked(targets.drop_last(), acks).push(targets.last())
    } else {
        those_acked(targets.drop_last(), acks)
    }
}

/// No more targets acknowledge than there are, and all did exactly when as
/// many did as there are.
pub proof fn lemma_acknowledged(acks: Seq<bool>, n: nat)
    ensures
        acknowledged(acks, n) <= n,
        acknowledged(acks, n) == n <==> all_acked(acks, n),
    decreases n,
{
    if n > 0 {
        lemma_acknowledged(acks, (n - 1) as nat);
        if all_acked(acks, n) {
            assert(acked_at(acks, n - 1));
            assert(all_acked(acks, (n - 1) as nat));
        }
        if acknowledged(acks, n) == n {
            assert(all_acked(acks, (n - 1) as nat));
        }
    }
}

/// The record that a write of `body` under `key` leaves in the index.
pub open spec fn written(cfg: ConfigView, key: Seq<u8>, body: Seq<u8>) -> RecordView {
    RecordView {
        volumes: cfg.desired(key),
        deleted: Deleted::No,
        hash: Some(hex(md5_digest(body))),
    }
}

/// What a write asks of the volumes and what it will leave in the index.
#[derive(Clone, PartialEq, Eq, Debug)]
pub struct WritePlan {
    /// The addresses to send the body to, one for each chosen volume.
    pub targets: Vec<Vec<u8>>,
    /// The record of the key once the write is committed.
    pub record: Record,
    /// The row of that record.
    pub row: Vec<u8>,
}

/// How a write ends.
#[derive(Clone, PartialEq, Eq, Debug)]
pub enum WriteOutcome {
    /// Every replica took the body: the row goes to the index.
    Commit { row: Vec<u8> },
    /// Some replica did not: the body is deleted again from the addresses
    /// that took it, as far as that succeeds, and the index is left alone.
    Rollback { undo: Vec<Vec<u8>> },
}

/// How a write ends, as a mathematical value.
pub enum WriteOutcomeView {
    Commit { row: Seq<u8> },
    Rollback { undo: Seq<Seq<u8>> },
}

impl View for WriteOutcome {
    type V = WriteOutcomeView;

    open spec fn view(&self) -> WriteOutcomeView {
        match *self {
            WriteOutcome::Commit { row } => WriteOutcomeView::Commit { row: row@ },
            WriteOutcome::Rollback { undo } => WriteOutcomeView::Rollback { undo: views(undo@) },
        }
    }
}

/// How a write to `targets` ends on the given acknowledgements: it is
/// committed when at least `replicas` targets acknowledged.
pub open spec fn write_outcome(
    replicas: nat,
    targets: Seq<Seq<u8>>,
    row: Seq<u8>,
    acks: Seq<bool>,
) -> WriteOutcomeView {
    if acknowledged(acks, targets.len()) >= replicas {
        WriteOutcomeView::Commit { row }
    } else {
        WriteOutcomeView::Rollback { undo: those_acked(targets, acks) }
    }
}

/// The status that answers a write.
pub open spec fn write_status(outcome: WriteOutcomeView) -> u16 {
    match outcome {
        WriteOutcomeView::Commit { .. } => CREATED,
        WriteOutcomeView::Rollback { .. } => INTERNAL_ERROR,
    }
}

/// Plans the write of `body` under `key`.
///
/// The body goes to the address of the key on each of the volumes that
/// should hold it. The record to commit names those volumes and the MD5 of
/// the body; it is well formed, and reading its row gives it back.
pub fn plan_write(cfg: &Config, key: &[u8], body: &[u8]) -> (plan: WritePlan)
    requires
        cfg@.wf(),
        key_fits(key@),
    ensures
        plan.record@ == written(cfg@, key@, body@),
        plan.record@.wf(),
        views(plan.targets@) == remotes(cfg@.desired(key@), key@),
        plan.targets@.len() == fanout(cfg@.volumes.len(), cfg@.replicas),
        plan.row@ == encode(plan.record@),
        decode(plan.row@) == Ok::<RecordView, RecordError>(plan.record@),
{
    let desired = key2volume(key, cfg.volumes.as_slice(), cfg.replicas, cfg.subvolumes);
    let digest = md5_of(body);
    let hash = to_hex(digest.as_slice());
    let path = key2path(key);
    let targets = remote_urls(desired.as_slice(), path.as_slice());
    let record = Record { volumes: desired, deleted: Deleted::No, hash: Some(hash) };
    proof {
        lemma_hex_shape(digest@);
        lemma_placement(key@, cfg@.volumes, cfg@.replicas, cfg@.subvolumes);
        assert(record@.wf());
        lemma_round_trip(record@);
        assert(views(targets@) =~= remotes(cfg@.desired(key@), key@));
    }
    let row = match record.to_bytes() {
        Ok(row) => row,
        Err(_) => Vec::new(),
    };
    WritePlan { targets, record, row }
}

/// Ends a write: `acks` says of each target, in the order of the plan,
/// whether it acknowledged.
///
/// The write is committed exactly when as many targets acknowledged as the
/// key has replicas. If not, the addresses that did acknowledge are handed
/// back to be cleaned.
pub fn settle_write(cfg: &Config, plan: &WritePlan, acks: &[bool]) -> (out: WriteOutcome)
    ensures
        out@ == write_outcome(cfg@.replicas, views(plan.targets@), plan.row@, acks@),
        out is Commit && plan.targets@.len() <= cfg@.replicas ==> all_acked(
            acks@,
            plan.targets@.len() as nat,
        ) && plan.targets@.len() == cfg@.replicas,
{
    let ghost targets = views(plan.targets@);
    let mut undo: Vec<Vec<u8>> = Vec::new();
    let mut ok: usize = 0;
    let mut i: usize = 0;
    while i < plan.targets.len()
        invariant
            i <= plan.targets.len(),
            targets == views(plan.targets@),
            ok == acknowledged(acks@, i as nat),
            ok <= i,
            views(undo@) == those_acked(targets.take(i as int), acks@),
        decreases plan.targets.len() - i,
    {
        let ghost next = targets.take(i + 1);
        assert(next.drop_last() =~= targets.take(i as int));
        assert(next.last() == plan.targets@[i as int]@);
        if i < acks.len() && acks[i] {
            let ghost before = views(undo@);
            undo.push(to_vec(plan.targets[i].as_slice()));
            assert(views(undo@) =~= before.push(plan.targets@[i as int]@));
            ok += 1;
        }
        i += 1;
    }
    proof {
        assert(targets.take(plan.targets.len() as int) =~= targets);
        lemma_acknowledged(acks@, plan.targets@.len() as nat);
    }
    if ok >= cfg.replicas {
        WriteOutcome::Commit { row: to_vec(plan.row.as_slice()) }
    } else {
        WriteOutcome::Rollback { undo }
    }
}

impl WriteOutcome {
    /// The status that answers the write: 201 when committed, else 500.
    pub fn status(&self) -> (status: u16)
        ensures
            status == write_status(self@),
    {
        match self {
            WriteOutcome::Commit { .. } => CREATED,
            WriteOutcome::Rollback { .. } => INTERNAL_ERROR,
        }
    }
}

/// What a delete does first.
#[derive(Clone, PartialEq, Eq, Debug)]
pub enum DeletePlan {
    /// Nothing is done; the client is told why.
    Reject { status: u16 },
    /// The key is unlinked: the row is replaced, no volume is involved, and
    /// the client is told that it is done.
    Unlink { row: Vec<u8>, status: u16 },
    /// The key is purged: every address is asked to delete it.
    Purge { targets: Vec<Vec<u8>> },
}

/// What a delete does first, as a mathematical value.
pub enum DeletePlanView {
    Reject { status: u16 },
    Unlink { row: Seq<u8>, status: u16 },
    Purge { targets: Seq<Seq<u8>> },
}

impl View for DeletePlan {
    type V = DeletePlanView;

    open spec fn view(&self) -> DeletePlanView {
        match *self {
            DeletePlan::Reject { status } => DeletePlanView::Reject { status },
            DeletePlan::Unlink { row, status } => DeletePlanView::Unlink { row: row@, status },
            DeletePlan::Purge { targets } => DeletePlanView::Purge { targets: views(targets@) },
        }
    }
}

/// What a delete of a key with the given record does first.
///
/// A key without a row is not found, which is answered with 404. Unlinking
/// is for live keys only, else it is answered with 403; it replaces the row
/// by that of the unlinked record and is answered with 204. Purging asks
/// every volume that the record names to delete the key.
pub open spec fn delete_plan(record: RecordView, key: Seq<u8>, unlink: bool) -> DeletePlanView {
    if record.deleted == Deleted::Hard {
        DeletePlanView::Reject { status: NOT_FOUND }
    } else if unlink && record.deleted != Deleted::No {
        DeletePlanView::Reject { status: FORBIDDEN }
    } else if unlink {
        DeletePlanView::Unlink { row: encode(record.with_state(Deleted::Soft)), status: NO_CONTENT }
    } else {
        DeletePlanView::Purge { targets: remotes(record.volumes, key) }
    }
}

/// Plans the delete of `key`, whose record is `record`.
pub fn plan_delete(record: &Record, key: &[u8], unlink: bool) -> (plan: DeletePlan)
    requires
        key_fits(key@),
    ensures
        plan@ == delete_plan(record@, key@, unlink),
{
    match record.deleted {
        Deleted::Hard => DeletePlan::Reject { status: NOT_FOUND },
        Deleted::Soft => {
            if unlink {
                DeletePlan::Reject { status: FORBIDDEN }
            } else {
                DeletePlan::Purge { targets: addresses(record, key) }
            }
        },
        Deleted::No => {
            if unlink {
                let unlinked = Record {
                    volumes: copy_all(record.volumes.as_slice()),
                    deleted: Deleted::Soft,
                    hash: match &record.hash {
                        Some(h) => Some(to_vec(h.as_slice())),
                        None => None,
                    },
                };
                assert(unlinked@ == record@.with_state(Deleted::Soft));
                let row = match unlinked.to_bytes() {
                    Ok(row) => row,
                    Err(_) => Vec::new(),
                };
                DeletePlan::Unlink { row, status: NO_CONTENT }
            } else {
                DeletePlan::Purge { targets: addresses(record, key) }
            }
        },
    }
}

/// The addresses of a key on the volumes that its record names.
pub fn addresses(record: &Record, key: &[u8]) -> (out: Vec<Vec<u8>>)
    requires
        key_fits(key@),
    ensures
        views(out@) == remotes(record@.volumes, key@),
{
    let path = key2path(key);
    let out = remote_urls(record.volumes.as_slice(), path.as_slice());
    assert(views(out@) =~= remotes(record@.volumes, key@));
    out
}

/// How a purge ends.
#[derive(Clone, Copy, PartialEq, Eq, Debug, Structural)]
pub enum PurgeOutcome {
    /// Every volume let go of the key: the row is removed.
    Remove,
    /// Some volume did not: the row stays, so that the delete can be tried again.
    Keep,
}

/// How a purge of `targets` addresses ends on the given acknowledgements.
pub open spec fn purge_outcome(targets: nat, acks: Seq<bool>) -> PurgeOutcome {
    if all_acked(acks, targets) {
        PurgeOutcome::Remove
    } else {
        PurgeOutcome::Keep
    }
}

/// The status that answers a purge.
pub open spec fn purge_status(outcome: PurgeOutcome) -> u16 {
    match outcome {
        PurgeOutcome::Remove => NO_CONTENT,
        PurgeOutcome::Keep => INTERNAL_ERROR,
    }
}

/// Ends a purge: `acks` says of each of the `targets` addresses, in the
/// order of the plan, whether the volume acknowledged the delete.
pub fn settle_purge(targets: usize, acks: &[bool]) -> (out: PurgeOutcome)
    ensures
        out == purge_outcome(targets as nat, acks@),
{
    let mut i: usize = 0;
    while i < targets
        invariant
            i <= targets,
            all_acked(acks@, i as nat),
        decreases targets - i,
    {
        if !(i < acks.len() && acks[i]) {
            assert(!acked_at(acks@, i as int));
            return PurgeOutcome::Keep;
        }
        i += 1;
    }
    PurgeOutcome::Remove
}

impl PurgeOutcome {
    /// The status that answers the purge: 204 when the row is removed, else 500.
    pub fn status(&self) -> (status: u16)
        ensures
            status == purge_status(*self),
    {
        match self {
            PurgeOutcome::Remove => NO_CONTENT,
            PurgeOutcome::Keep => INTERNAL_ERROR,
        }
    }
}

/// What brings a key to the volumes that should hold it.
#[derive(Clone, PartialEq, Eq, Debug)]
pub struct RebalancePlan {
    /// The addresses of the key on the volumes that hold it; the body is
    /// read from any of them.
    pub sources: Vec<Vec<u8>>,
    /// The addresses to copy the body to: the key on the volumes that
    /// should hold it and do not yet.
    pub copies: Vec<Vec<u8>>,
    /// The addresses to delete afterwards: the key on the volumes that hold
    /// it and should not.
    pub drops: Vec<Vec<u8>>,
    /// The record once the key is moved: the volumes that should hold it,
    /// the rest unchanged.
    pub record: Record,
    /// The row of that record.
    pub row: Vec<u8>,
}

/// The record of a key once it is moved to the volumes `desired`.
pub open spec fn moved(record: RecordView, desired: Seq<Seq<u8>>) -> RecordView {
    RecordView { volumes: desired, ..record }
}

/// Whether a key with this record is to be moved: it has a row and the
/// volumes that hold it are not the volumes that should.
pub open spec fn to_be_moved(cfg: ConfigView, record: RecordView, key: Seq<u8>) -> bool {
    record.deleted != Deleted::Hard && record.volumes != cfg.desired(key)
}

/// Plans the move of a key to the volumes that should hold it, if it is not
/// there already.
pub fn plan_rebalance(cfg: &Config, record: &Record, key: &[u8]) -> (plan: Option<RebalancePlan>)
    requires
        cfg@.wf(),
        key_fits(key@),
    ensures
        plan is Some <==> to_be_moved(cfg@, record@, key@),
        plan matches Some(p) ==> {
            &&& views(p.sources@) == remotes(record@.volumes, key@)
            &&& views(p.copies@) == remotes(without(cfg@.desired(key@), record@.volumes), key@)
            &&& views(p.drops@) == remotes(without(record@.volumes, cfg@.desired(key@)), key@)
            &&& p.record@ == moved(record@, cfg@.desired(key@))
            &&& p.row@ == encode(p.record@)
            &&& (p.record@.hash is Some && record@.wf() ==> decode(p.row@) == Ok::<
                RecordView,
                RecordError,
            >(p.record@))
        },
{
    if record.deleted == Deleted::Hard {
        return None;
    }
    let desired = key2volume(key, cfg.volumes.as_slice(), cfg.replicas, cfg.subvolumes);
    if !needs_rebalance(record.volumes.as_slice(), desired.as_slice()) {
        return None;
    }
    let path = key2path(key);
    let sources = remote_urls(record.volumes.as_slice(), path.as_slice());
    let missing = difference(desired.as_slice(), record.volumes.as_slice());
    let copies = remote_urls(missing.as_slice(), path.as_slice());
    let surplus = difference(record.volumes.as_slice(), desired.as_slice());
    let drops = remote_urls(surplus.as_slice(), path.as_slice());
    let after = Record {
        volumes: desired,
        deleted: record.deleted,
        hash: match &record.hash {
            Some(h) => Some(to_vec(h.as_slice())),
            None => None,
        },
    };
    proof {
        assert(views(sources@) =~= remotes(record@.volumes, key@));
        assert(views(copies@) =~= remotes(without(cfg@.desired(key@), record@.volumes), key@));
        assert(views(drops@) =~= remotes(without(record@.volumes, cfg@.desired(key@)), key@));
        assert(after@ == moved(record@, cfg@.desired(key@)));
        if after@.hash is Some && record@.wf() {
            lemma_placement(key@, cfg@.volumes, cfg@.replicas, cfg@.subvolumes);
            lemma_round_trip(after@);
        }
    }
    let row = match after.to_bytes() {
        Ok(row) => row,
        Err(_) => Vec::new(),
    };
    Some(RebalancePlan { sources, copies, drops, record: after, row })
}

/// How a move ends.
#[derive(Clone, PartialEq, Eq, Debug)]
pub enum RebalanceOutcome {
    /// The body reached every volume that lacked it: the row goes to the
    /// index, then the addresses are deleted.
    Commit { row: Vec<u8>, drops: Vec<Vec<u8>> },
    /// Something failed: the index is left alone.
    Abort,
}

/// How a move ends, as a mathematical value.
pub enum RebalanceOutcomeView {
    Commit { row: Seq<u8>, drops: Seq<Seq<u8>> },
    Abort,
}

impl View for RebalanceOutcome {
    type V = RebalanceOutcomeView;

    open spec fn view(&self) -> RebalanceOutcomeView {
        match *self {
            RebalanceOutcome::Commit { row, drops } => RebalanceOutcomeView::Commit {
                row: row@,
                drops: views(drops@),
            },
            RebalanceOutcome::Abort => RebalanceOutcomeView::Abort,
        }
    }
}

/// How a move ends: it is committed when the body could be read and every
/// copy was acknowledged.
pub open spec fn rebalance_outcome(
    copies: nat,
    row: Seq<u8>,
    drops: Seq<Seq<u8>>,
    fetched: bool,
    acks: Seq<bool>,
) -> RebalanceOutcomeView {
    if fetched && all_acked(acks, copies) {
        RebalanceOutcomeView::Commit { row, drops }
    } else {
        RebalanceOutcomeView::Abort
    }
}

/// Ends a move: `fetched` says whether the body could be read from a
/// source, `acks` says of each copy, in the order of the plan, whether it was
/// acknowledged.
pub fn settle_rebalance(plan: &RebalancePlan, fetched: bool, acks: &[bool]) -> (out:
    RebalanceOutcome)
    ensures
        out@ == rebalance_outcome(
            plan.copies@.len() as nat,
            plan.row@,
            views(plan.drops@),
            fetched,
            acks@,
        ),
{
    if !fetched {
        return RebalanceOutcome::Abort;
    }
    match settle_purge(plan.copies.len(), acks) {
        PurgeOutcome::Remove => RebalanceOutcome::Commit {
            row: to_vec(plan.row.as_slice()),
            drops: copy_all(plan.drops.as_slice()),
        },
        PurgeOutcome::Keep => RebalanceOutcome::Abort,
    }
}

} // verus!
