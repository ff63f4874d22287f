use blobkv::config::Config;
use blobkv::record::{Deleted, Record};
use blobkv::replication::{
    addresses, plan_delete, plan_rebalance, plan_write, settle_purge, settle_rebalance,
    settle_write, DeletePlan, PurgeOutcome, RebalanceOutcome, WriteOutcome,
};
use blobkv::volume::{
    delete_acknowledged, get_succeeded, head_present, put_acknowledged, remote_url, remote_urls,
};

const HASH: &[u8] = b"7d793037a0760186574b0282f2f435e7";

fn names(items: &[&str]) -> Vec<Vec<u8>> {
    items.iter().map(|s| s.as_bytes().to_vec()).collect()
}

fn config(volumes: &[&str], replicas: usize) -> Config {
    Config { volumes: names(volumes), replicas, subvolumes: 1, fallback: Vec::new() }
}

fn live(volumes: &[&str]) -> Record {
    Record { volumes: names(volumes), deleted: Deleted::No, hash: Some(HASH.to_vec()) }
}

#[test]
fn volume_addresses() {
    assert_eq!(remote_url(b"A", b"/3e/d1/L2hlbGxv"), b"http://A/3e/d1/L2hlbGxv".to_vec());
    assert_eq!(
        remote_url(b"localhost:3001/sv0A", b"/3e/d1/L2hlbGxv"),
        b"http://localhost:3001/sv0A/3e/d1/L2hlbGxv".to_vec()
    );
    assert_eq!(
        remote_urls(&names(&["C", "B"]), b"/p"),
        names(&["http://C/p", "http://B/p"])
    );
    assert_eq!(remote_urls(&names(&[]), b"/p"), names(&[]));
}

#[test]
fn answers_of_a_volume() {
    for status in 0..600u16 {
        assert_eq!(put_acknowledged(Some(status)), status == 201 || status == 204);
        assert_eq!(delete_acknowledged(Some(status)), status == 204 || status == 404);
        assert_eq!(get_succeeded(Some(status)), status == 200);
        assert_eq!(head_present(Some(status)), status == 200);
    }
    assert!(!put_acknowledged(None));
    assert!(!delete_acknowledged(None));
    assert!(!get_succeeded(None));
    assert!(!head_present(None));
}

#[test]
fn write_goes_to_the_chosen_volumes() {
    let cfg = config(&["A", "B", "C"], 2);
    let plan = plan_write(&cfg, b"/hello", b"world");
    assert_eq!(
        plan.targets,
        names(&["http://C/3e/d1/L2hlbGxv", "http://B/3e/d1/L2hlbGxv"])
    );
    assert_eq!(plan.record, live(&["C", "B"]));
    assert_eq!(plan.row, b"HASH7d793037a0760186574b0282f2f435e7C,B".to_vec());
    assert_eq!(Record::from_bytes(&plan.row), Ok(plan.record.clone()));
}

#[test]
fn hash_of_an_empty_body() {
    let cfg = config(&["A", "B", "C"], 1);
    let plan = plan_write(&cfg, b"/hello", b"");
    assert_eq!(plan.record.hash, Some(b"d41d8cd98f00b204e9800998ecf8427e".to_vec()));
    assert_eq!(plan.record.volumes, names(&["C"]));
}

#[test]
fn write_with_subvolumes() {
    let cfg = Config {
        volumes: names(&["localhost:3001", "localhost:3002", "localhost:3003"]),
        replicas: 2,
        subvolumes: 10,
        fallback: Vec::new(),
    };
    let plan = plan_write(&cfg, b"/hello", b"world");
    assert_eq!(plan.record.volumes, names(&["localhost:3003/sv04", "localhost:3001/sv06"]));
    assert_eq!(
        plan.targets,
        names(&[
            "http://localhost:3003/sv04/3e/d1/L2hlbGxv",
            "http://localhost:3001/sv06/3e/d1/L2hlbGxv"
        ])
    );
    assert_eq!(
        plan.row,
        b"HASH7d793037a0760186574b0282f2f435e7localhost:3003/sv04,localhost:3001/sv06".to_vec()
    );
}

#[test]
fn write_is_committed_when_every_replica_acknowledged() {
    let cfg = config(&["A", "B", "C"], 2);
    let plan = plan_write(&cfg, b"/hello", b"world");
    let outcome = settle_write(&cfg, &plan, &[true, true]);
    assert_eq!(outcome, WriteOutcome::Commit { row: plan.row.clone() });
    assert_eq!(outcome.status(), 201);
}

#[test]
fn refused_write_is_undone_where_it_was_taken() {
    let cfg = config(&["A", "B", "C"], 2);
    let plan = plan_write(&cfg, b"/hello", b"world");

    let outcome = settle_write(&cfg, &plan, &[true, false]);
    assert_eq!(outcome, WriteOutcome::Rollback { undo: names(&["http://C/3e/d1/L2hlbGxv"]) });
    assert_eq!(outcome.status(), 500);

    let outcome = settle_write(&cfg, &plan, &[false, true]);
    assert_eq!(outcome, WriteOutcome::Rollback { undo: names(&["http://B/3e/d1/L2hlbGxv"]) });

    let outcome = settle_write(&cfg, &plan, &[false, false]);
    assert_eq!(outcome, WriteOutcome::Rollback { undo: names(&[]) });
    assert_eq!(outcome.status(), 500);
}

#[test]
fn missing_answers_count_as_refusals() {
    let cfg = config(&["A", "B", "C"], 2);
    let plan = plan_write(&cfg, b"/hello", b"world");
    let outcome = settle_write(&cfg, &plan, &[true]);
    assert_eq!(outcome, WriteOutcome::Rollback { undo: names(&["http://C/3e/d1/L2hlbGxv"]) });
    let outcome = settle_write(&cfg, &plan, &[]);
    assert_eq!(outcome, WriteOutcome::Rollback { undo: names(&[]) });
    // Answers beyond the targets say nothing.
    let outcome = settle_write(&cfg, &plan, &[true, false, true, true]);
    assert_eq!(outcome.status(), 500);
}

#[test]
fn pool_smaller_than_the_replicas_commits_nothing() {
    let cfg = config(&["A", "B"], 3);
    let plan = plan_write(&cfg, b"/hello", b"world");
    assert_eq!(plan.targets.len(), 2);
    let outcome = settle_write(&cfg, &plan, &[true, true]);
    assert_eq!(
        outcome,
        WriteOutcome::Rollback {
            undo: names(&["http://B/3e/d1/L2hlbGxv", "http://A/3e/d1/L2hlbGxv"])
        }
    );
}

#[test]
fn delete_of_a_missing_key_is_not_found() {
    assert_eq!(plan_delete(&Record::absent(), b"/hello", false), DeletePlan::Reject { status: 404 });
    assert_eq!(plan_delete(&Record::absent(), b"/hello", true), DeletePlan::Reject { status: 404 });
}

#[test]
fn unlink_replaces_the_row() {
    let plan = plan_delete(&live(&["C", "B"]), b"/hello", true);
    assert_eq!(
        plan,
        DeletePlan::Unlink {
            row: b"DELETEDHASH7d793037a0760186574b0282f2f435e7C,B".to_vec(),
            status: 204
        }
    );
    if let DeletePlan::Unlink { row, .. } = plan {
        let record = Record::from_bytes(&row).unwrap();
        assert_eq!(record.deleted, Deleted::Soft);
        assert_eq!(record.volumes, names(&["C", "B"]));
        assert_eq!(record.hash, Some(HASH.to_vec()));
    }
}

#[test]
fn unlink_of_an_unlinked_key_is_forbidden() {
    let mut record = live(&["C", "B"]);
    record.deleted = Deleted::Soft;
    assert_eq!(plan_delete(&record, b"/hello", true), DeletePlan::Reject { status: 403 });
}

#[test]
fn purge_asks_every_volume_of_the_record() {
    let targets = names(&["http://C/3e/d1/L2hlbGxv", "http://B/3e/d1/L2hlbGxv"]);
    let mut record = live(&["C", "B"]);
    assert_eq!(plan_delete(&record, b"/hello", false), DeletePlan::Purge { targets: targets.clone() });
    assert_eq!(addresses(&record, b"/hello"), targets);
    record.deleted = Deleted::Soft;
    assert_eq!(plan_delete(&record, b"/hello", false), DeletePlan::Purge { targets });
}

#[test]
fn row_is_removed_when_every_volume_let_go() {
    assert_eq!(settle_purge(2, &[true, true]), PurgeOutcome::Remove);
    assert_eq!(settle_purge(2, &[true, true]).status(), 204);
    assert_eq!(settle_purge(0, &[]), PurgeOutcome::Remove);
    assert_eq!(settle_purge(2, &[true, false]), PurgeOutcome::Keep);
    assert_eq!(settle_purge(2, &[false, true]), PurgeOutcome::Keep);
    assert_eq!(settle_purge(2, &[true]), PurgeOutcome::Keep);
    assert_eq!(settle_purge(2, &[true, false]).status(), 500);
}

#[test]
fn key_on_its_volumes_is_not_moved() {
    let cfg = config(&["A", "B", "C"], 2);
    assert_eq!(plan_rebalance(&cfg, &live(&["C", "B"]), b"/hello"), None);
    assert_eq!(plan_rebalance(&cfg, &Record::absent(), b"/hello"), None);
}

#[test]
fn key_is_moved_to_the_volumes_that_should_hold_it() {
    let cfg = config(&["A", "B", "C"], 2);
    let plan = plan_rebalance(&cfg, &live(&["A", "B"]), b"/hello").unwrap();
    assert_eq!(
        plan.sources,
        names(&["http://A/3e/d1/L2hlbGxv", "http://B/3e/d1/L2hlbGxv"])
    );
    assert_eq!(plan.copies, names(&["http://C/3e/d1/L2hlbGxv"]));
    assert_eq!(plan.drops, names(&["http://A/3e/d1/L2hlbGxv"]));
    assert_eq!(plan.record, live(&["C", "B"]));
    assert_eq!(plan.row, b"HASH7d793037a0760186574b0282f2f435e7C,B".to_vec());

    let done = settle_rebalance(&plan, true, &[true]);
    assert_eq!(
        done,
        RebalanceOutcome::Commit { row: plan.row.clone(), drops: plan.drops.clone() }
    );
    assert_eq!(settle_rebalance(&plan, true, &[false]), RebalanceOutcome::Abort);
    assert_eq!(settle_rebalance(&plan, true, &[]), RebalanceOutcome::Abort);
    assert_eq!(settle_rebalance(&plan, false, &[true]), RebalanceOutcome::Abort);
}

#[test]
fn order_of_the_volumes_is_part_of_the_placement() {
    let cfg = config(&["A", "B", "C"], 2);
    let plan = plan_rebalance(&cfg, &live(&["B", "C"]), b"/hello").unwrap();
    assert_eq!(plan.copies, names(&[]));
    assert_eq!(plan.drops, names(&[]));
    assert_eq!(plan.record.volumes, names(&["C", "B"]));
    assert_eq!(
        settle_rebalance(&plan, true, &[]),
        RebalanceOutcome::Commit { row: plan.row.clone(), drops: Vec::new() }
    );
}

#[test]
fn unlinked_key_keeps_its_state_when_moved() {
    let cfg = config(&["A", "B", "C"], 2);
    let mut record = live(&["A"]);
    record.deleted = Deleted::Soft;
    let plan = plan_rebalance(&cfg, &record, b"/hello").unwrap();
    assert_eq!(plan.record.deleted, Deleted::Soft);
    assert_eq!(plan.record.hash, Some(HASH.to_vec()));
    assert_eq!(plan.row, b"DELETEDHASH7d793037a0760186574b0282f2f435e7C,B".to_vec());
    assert_eq!(plan.copies, names(&["http://C/3e/d1/L2hlbGxv", "http://B/3e/d1/L2hlbGxv"]));
    assert_eq!(plan.drops, names(&["http://A/3e/d1/L2hlbGxv"]));
}

#[test]
fn configurations() {
    assert!(config(&["A", "B", "C"], 2).is_well_formed());
    assert!(!config(&[], 2).is_well_formed());
    assert!(!config(&["A"], 0).is_well_formed());
    assert!(!config(&["A", "A"], 1).is_well_formed());
    assert!(!config(&["A", ""], 1).is_well_formed());
    assert!(!config(&["A,B"], 1).is_well_formed());
    let mut undivided = config(&["A"], 1);
    undivided.subvolumes = 0;
    assert!(!undivided.is_well_formed());
    assert_eq!(config(&["A", "B", "C"], 2).desired(b"/hello"), names(&["C", "B"]));
}
