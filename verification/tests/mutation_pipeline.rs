use stratsync::catalog::ActionCatalog;
use stratsync::mutation::apply_entry_mutation;
use stratsync::types::{ActionInfo, Entry, Job, Player, RaidInfo, ServiceError};

const PLAYER_P: u128 = 0x10;
const ACTION_A: u128 = 0x20;
const ACTION_B: u128 = 0x21;
const E1: u128 = 0x31;
const E2: u128 = 0x32;
const E3: u128 = 0x33;

fn catalog() -> ActionCatalog {
    let mut cat = ActionCatalog::new();
    cat.add(Job::PLD, ActionInfo { id: ACTION_A, cooldown: 60, charges: 1 });
    cat.add(Job::PLD, ActionInfo { id: ACTION_B, cooldown: 120, charges: 2 });
    cat
}

fn raid() -> RaidInfo {
    RaidInfo { duration: 600, headcount: 8, damages: Vec::new() }
}

fn roster() -> Vec<Player> {
    vec![Player { id: PLAYER_P, job: Some(Job::PLD), order: 1 }]
}

fn entry(id: u128, action: u128, use_at: i32) -> Entry {
    Entry { id, player: PLAYER_P, action, use_at }
}

#[test]
fn feasibility_accept() {
    // cooldown 60 with one charge: a second use exactly at the window's end fits
    let entries = vec![entry(E1, ACTION_A, 0)];
    let out = apply_entry_mutation(
        &roster(),
        &catalog(),
        &raid(),
        &entries,
        &vec![entry(E2, ACTION_A, 60)],
        &Vec::new(),
    )
    .unwrap();
    assert_eq!(out.entries_after, vec![entry(E1, ACTION_A, 0), entry(E2, ACTION_A, 60)]);
    assert_eq!(out.accepted_upserts, vec![entry(E2, ACTION_A, 60)]);
    assert!(out.accepted_deletes.is_empty());
    assert!(out.reconcile_upserts.is_empty());
    assert!(out.reconcile_deletes.is_empty());
}

#[test]
fn feasibility_reject_new_id() {
    // the new use overlaps the running window: the group is rejected and
    // the unknown id is reconciled away
    let entries = vec![entry(E1, ACTION_A, 0)];
    let out = apply_entry_mutation(
        &roster(),
        &catalog(),
        &raid(),
        &entries,
        &vec![entry(E3, ACTION_A, 30)],
        &Vec::new(),
    )
    .unwrap();
    assert_eq!(out.entries_after, entries);
    assert!(out.accepted_upserts.is_empty());
    assert!(out.reconcile_upserts.is_empty());
    assert_eq!(out.reconcile_deletes, vec![E3]);
}

#[test]
fn feasibility_reject_existing_id() {
    // rejecting a group with a known id restates the authoritative row
    let entries = vec![entry(E1, ACTION_A, 0)];
    let out = apply_entry_mutation(
        &roster(),
        &catalog(),
        &raid(),
        &entries,
        &vec![entry(E1, ACTION_A, 0), entry(E2, ACTION_A, 30)],
        &Vec::new(),
    )
    .unwrap();
    assert_eq!(out.entries_after, entries);
    assert!(out.accepted_upserts.is_empty());
    assert_eq!(out.reconcile_upserts, vec![entry(E1, ACTION_A, 0)]);
    assert_eq!(out.reconcile_deletes, vec![E2]);
}

#[test]
fn charges_two_allow_overlap() {
    // two charges tolerate a second use inside the window (peak 2)
    let entries = vec![entry(E1, ACTION_B, 0)];
    let out = apply_entry_mutation(
        &roster(),
        &catalog(),
        &raid(),
        &entries,
        &vec![entry(E2, ACTION_B, 30)],
        &Vec::new(),
    )
    .unwrap();
    assert_eq!(out.entries_after, vec![entry(E1, ACTION_B, 0), entry(E2, ACTION_B, 30)]);
    assert_eq!(out.accepted_upserts, vec![entry(E2, ACTION_B, 30)]);
}

#[test]
fn use_at_boundaries() {
    let entries = Vec::new();
    let cat = catalog();
    let rd = raid();
    let players = roster();
    let ok = apply_entry_mutation(
        &players,
        &cat,
        &rd,
        &entries,
        &vec![entry(E1, ACTION_A, -1800)],
        &Vec::new(),
    );
    assert!(ok.is_ok());
    let low = apply_entry_mutation(
        &players,
        &cat,
        &rd,
        &entries,
        &vec![entry(E1, ACTION_A, -1801)],
        &Vec::new(),
    );
    assert_eq!(low.unwrap_err(), ServiceError::InvalidArgument);
    let hi_ok = apply_entry_mutation(
        &players,
        &cat,
        &rd,
        &entries,
        &vec![entry(E1, ACTION_A, 600)],
        &Vec::new(),
    );
    assert!(hi_ok.is_ok());
    let hi = apply_entry_mutation(
        &players,
        &cat,
        &rd,
        &entries,
        &vec![entry(E1, ACTION_A, 601)],
        &Vec::new(),
    );
    assert_eq!(hi.unwrap_err(), ServiceError::InvalidArgument);
}

#[test]
fn unknown_player_rejected() {
    let bad = Entry { id: E1, player: 0x99, action: ACTION_A, use_at: 0 };
    let r = apply_entry_mutation(
        &roster(),
        &catalog(),
        &raid(),
        &Vec::new(),
        &vec![bad],
        &Vec::new(),
    );
    assert_eq!(r.unwrap_err(), ServiceError::FailedPrecondition);
}

#[test]
fn empty_job_rejected() {
    let players = vec![Player { id: PLAYER_P, job: None, order: 1 }];
    let r = apply_entry_mutation(
        &players,
        &catalog(),
        &raid(),
        &Vec::new(),
        &vec![entry(E1, ACTION_A, 0)],
        &Vec::new(),
    );
    assert_eq!(r.unwrap_err(), ServiceError::FailedPrecondition);
}

#[test]
fn unknown_action_rejected() {
    let r = apply_entry_mutation(
        &roster(),
        &catalog(),
        &raid(),
        &Vec::new(),
        &vec![entry(E1, 0x77, 0)],
        &Vec::new(),
    );
    assert_eq!(r.unwrap_err(), ServiceError::FailedPrecondition);
}

#[test]
fn duplicate_upsert_id_rejected() {
    let r = apply_entry_mutation(
        &roster(),
        &catalog(),
        &raid(),
        &Vec::new(),
        &vec![entry(E1, ACTION_A, 0), entry(E1, ACTION_A, 100)],
        &Vec::new(),
    );
    assert_eq!(r.unwrap_err(), ServiceError::FailedPrecondition);
}

#[test]
fn delete_of_upserted_id_rejected() {
    let entries = vec![entry(E1, ACTION_A, 0)];
    let r = apply_entry_mutation(
        &roster(),
        &catalog(),
        &raid(),
        &entries,
        &vec![entry(E1, ACTION_A, 90)],
        &vec![E1],
    );
    assert_eq!(r.unwrap_err(), ServiceError::InvalidArgument);
}

#[test]
fn deletes_make_room_for_upserts() {
    // deleting the blocking use lets the overlapping one in
    let entries = vec![entry(E1, ACTION_A, 0)];
    let out = apply_entry_mutation(
        &roster(),
        &catalog(),
        &raid(),
        &entries,
        &vec![entry(E2, ACTION_A, 30)],
        &vec![E1],
    )
    .unwrap();
    assert_eq!(out.entries_after, vec![entry(E2, ACTION_A, 30)]);
    assert_eq!(out.accepted_deletes, vec![E1]);
    assert_eq!(out.accepted_upserts, vec![entry(E2, ACTION_A, 30)]);
}

#[test]
fn unknown_delete_ids_are_skipped() {
    let entries = vec![entry(E1, ACTION_A, 0)];
    let out = apply_entry_mutation(
        &roster(),
        &catalog(),
        &raid(),
        &entries,
        &Vec::new(),
        &vec![0x4444],
    )
    .unwrap();
    assert_eq!(out.entries_after, entries);
    assert!(out.accepted_deletes.is_empty());
}

#[test]
fn upsert_existing_id_moves_only_use_at() {
    // the request names a different action, but player and action are
    // fixed by the current state; only the time moves
    let entries = vec![entry(E1, ACTION_A, 0)];
    let mut req = entry(E1, ACTION_B, 90);
    req.player = 0x9999;
    let out = apply_entry_mutation(
        &roster(),
        &catalog(),
        &raid(),
        &entries,
        &vec![req],
        &Vec::new(),
    )
    .unwrap();
    assert_eq!(out.entries_after, vec![entry(E1, ACTION_A, 90)]);
}

#[test]
fn independent_groups_decided_separately() {
    // the overloaded group is rejected while the other group's change lands
    let entries = vec![entry(E1, ACTION_A, 0)];
    let out = apply_entry_mutation(
        &roster(),
        &catalog(),
        &raid(),
        &entries,
        &vec![entry(E2, ACTION_A, 30), entry(E3, ACTION_B, 0)],
        &Vec::new(),
    )
    .unwrap();
    assert_eq!(out.entries_after, vec![entry(E1, ACTION_A, 0), entry(E3, ACTION_B, 0)]);
    assert_eq!(out.accepted_upserts, vec![entry(E3, ACTION_B, 0)]);
    assert_eq!(out.reconcile_deletes, vec![E2]);
}
