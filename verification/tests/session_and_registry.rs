use stratsync::auth::{authorize_subscription, split_bearer};
use stratsync::catalog::ActionCatalog;
use stratsync::events::{apply_event, Event, Replica};
use stratsync::registry::{EvictOutcome, Registry};
use stratsync::session::{
    clear_other_sessions_targets, op_delete_entry, op_delete_note, op_mutate_entries,
    op_update_player_job, op_upsert_damage_option, op_upsert_entry, op_upsert_note, remove_peer,
    SingleUpsert,
};
use stratsync::types::{
    ActionInfo, Damage, DamageOption, Entry, Job, Player, RaidInfo, ServiceError, StrategyContext,
};

const TOKEN: u128 = 0x1000;
const OTHER: u128 = 0x1001;
const PLAYER_P: u128 = 0x10;
const ACTION_A: u128 = 0x20;
const DAMAGE_D: u128 = 0x40;
const E1: u128 = 0x31;
const E2: u128 = 0x32;

fn catalog() -> ActionCatalog {
    let mut cat = ActionCatalog::new();
    cat.add(Job::PLD, ActionInfo { id: ACTION_A, cooldown: 60, charges: 1 });
    cat.add(Job::WAR, ActionInfo { id: ACTION_A, cooldown: 60, charges: 1 });
    cat
}

fn raid() -> RaidInfo {
    RaidInfo {
        duration: 600,
        headcount: 8,
        damages: vec![Damage { id: DAMAGE_D, max_shared: 4, num_targets: 1 }],
    }
}

fn ctx() -> StrategyContext {
    StrategyContext {
        raid_id: 0x5000,
        peers: vec![TOKEN, OTHER],
        elevated_peers: vec![TOKEN],
        players: vec![Player { id: PLAYER_P, job: Some(Job::PLD), order: 1 }],
        damage_options: Vec::new(),
        entries: vec![Entry { id: E1, player: PLAYER_P, action: ACTION_A, use_at: 0 }],
    }
}

#[test]
fn damage_option_requires_elevation() {
    let mut c = ctx();
    let d = DamageOption { damage: DAMAGE_D, num_shared: None, primary_target: None };
    let r = op_upsert_damage_option(&mut c, &raid(), OTHER, d);
    assert_eq!(r.unwrap_err(), ServiceError::PermissionDenied);
    assert!(c.damage_options.is_empty());
}

#[test]
fn damage_option_validation() {
    let mut c = ctx();
    let unknown = DamageOption { damage: 0x77, num_shared: None, primary_target: None };
    assert_eq!(
        op_upsert_damage_option(&mut c, &raid(), TOKEN, unknown).unwrap_err(),
        ServiceError::FailedPrecondition
    );
    let too_shared = DamageOption { damage: DAMAGE_D, num_shared: Some(5), primary_target: None };
    assert_eq!(
        op_upsert_damage_option(&mut c, &raid(), TOKEN, too_shared).unwrap_err(),
        ServiceError::FailedPrecondition
    );
    let bad_target =
        DamageOption { damage: DAMAGE_D, num_shared: Some(4), primary_target: Some(0x99) };
    assert_eq!(
        op_upsert_damage_option(&mut c, &raid(), TOKEN, bad_target).unwrap_err(),
        ServiceError::FailedPrecondition
    );
}

#[test]
fn damage_option_last_writer_wins() {
    // two upserts for one damage leave the state the last one alone yields
    let d1 = DamageOption { damage: DAMAGE_D, num_shared: Some(2), primary_target: None };
    let d2 = DamageOption { damage: DAMAGE_D, num_shared: Some(3), primary_target: Some(PLAYER_P) };
    let mut twice = ctx();
    op_upsert_damage_option(&mut twice, &raid(), TOKEN, d1).unwrap();
    op_upsert_damage_option(&mut twice, &raid(), TOKEN, d2).unwrap();
    let mut once = ctx();
    op_upsert_damage_option(&mut once, &raid(), TOKEN, d2).unwrap();
    assert_eq!(twice.damage_options, once.damage_options);
    assert_eq!(twice.damage_options, vec![d2]);
}

#[test]
fn job_change_clears_entries() {
    let mut c = ctx();
    op_update_player_job(&mut c, TOKEN, PLAYER_P, Some(Job::WAR)).unwrap();
    assert_eq!(c.players[0].job, Some(Job::WAR));
    assert!(c.entries.iter().all(|e| e.player != PLAYER_P));
    assert!(c.entries.is_empty());
}

#[test]
fn job_change_unknown_player() {
    let mut c = ctx();
    assert_eq!(
        op_update_player_job(&mut c, TOKEN, 0x99, None).unwrap_err(),
        ServiceError::FailedPrecondition
    );
}

#[test]
fn delete_entry_requires_existing() {
    let mut c = ctx();
    assert_eq!(op_delete_entry(&mut c, TOKEN, 0x99).unwrap_err(), ServiceError::FailedPrecondition);
    op_delete_entry(&mut c, TOKEN, E1).unwrap();
    assert!(c.entries.is_empty());
}

#[test]
fn single_upsert_collision_keeps_state() {
    let mut c = ctx();
    let r = op_upsert_entry(
        &mut c,
        &catalog(),
        &raid(),
        TOKEN,
        Entry { id: E2, player: PLAYER_P, action: ACTION_A, use_at: 30 },
    )
    .unwrap();
    assert_eq!(r, SingleUpsert::RejectedNew(E2));
    assert_eq!(c.entries.len(), 1);
    let r2 = op_upsert_entry(
        &mut c,
        &catalog(),
        &raid(),
        TOKEN,
        Entry { id: E2, player: PLAYER_P, action: ACTION_A, use_at: 60 },
    )
    .unwrap();
    assert_eq!(r2, SingleUpsert::Applied);
    assert_eq!(c.entries.len(), 2);
}

#[test]
fn single_upsert_existing_overwrites_only_use_at() {
    let mut c = ctx();
    let r = op_upsert_entry(
        &mut c,
        &catalog(),
        &raid(),
        TOKEN,
        Entry { id: E1, player: 0x9999, action: 0x8888, use_at: 90 },
    )
    .unwrap();
    assert_eq!(r, SingleUpsert::Applied);
    assert_eq!(c.entries, vec![Entry { id: E1, player: PLAYER_P, action: ACTION_A, use_at: 90 }]);
}

#[test]
fn note_boundaries() {
    let c = ctx();
    let rd = raid();
    let content = vec![0u8; 128];
    assert!(op_upsert_note(&c, &rd, TOKEN, 9, 0, &content).is_ok());
    assert_eq!(
        op_upsert_note(&c, &rd, TOKEN, 10, 0, &content).unwrap_err(),
        ServiceError::InvalidArgument
    );
    let long = vec![0u8; 129];
    assert_eq!(
        op_upsert_note(&c, &rd, TOKEN, 9, 0, &long).unwrap_err(),
        ServiceError::InvalidArgument
    );
    assert_eq!(
        op_upsert_note(&c, &rd, TOKEN, 0, 0, &content).unwrap_err(),
        ServiceError::InvalidArgument
    );
    assert_eq!(
        op_upsert_note(&c, &rd, TOKEN, 9, -1801, &content).unwrap_err(),
        ServiceError::InvalidArgument
    );
    assert_eq!(op_delete_note(&c, OTHER).unwrap_err(), ServiceError::PermissionDenied);
    assert!(op_delete_note(&c, TOKEN).is_ok());
}

#[test]
fn clear_other_sessions_targets_author_only() {
    let c = ctx();
    assert_eq!(
        clear_other_sessions_targets(&c, TOKEN, false).unwrap_err(),
        ServiceError::PermissionDenied
    );
    let targets = clear_other_sessions_targets(&c, TOKEN, true).unwrap();
    assert_eq!(targets, vec![OTHER]);
}

#[test]
fn remove_peer_trims_both_rosters() {
    let mut c = ctx();
    let empty = remove_peer(&mut c, TOKEN);
    assert!(!empty);
    assert_eq!(c.peers, vec![OTHER]);
    assert!(c.elevated_peers.is_empty());
    let empty2 = remove_peer(&mut c, OTHER);
    assert!(empty2);
}

#[test]
fn private_strategy_without_author() {
    let author = 0xA0;
    assert_eq!(
        authorize_subscription(false, author, None).unwrap_err(),
        ServiceError::PermissionDenied
    );
    assert_eq!(authorize_subscription(false, author, Some(author)).unwrap(), true);
    assert_eq!(authorize_subscription(true, author, None).unwrap(), false);
}

#[test]
fn bearer_header_shapes() {
    assert_eq!(split_bearer("Bearer abc.def").unwrap(), "abc.def");
    assert_eq!(split_bearer("Basic abc").unwrap_err(), ServiceError::InvalidArgument);
    assert_eq!(split_bearer("nospace").unwrap_err(), ServiceError::InvalidArgument);
}

#[test]
fn registry_lifecycle() {
    let mut reg = Registry::new();
    reg.subscribe(
        0x5000,
        0x6000,
        TOKEN,
        true,
        vec![Player { id: PLAYER_P, job: Some(Job::PLD), order: 1 }],
        Vec::new(),
        Vec::new(),
    );
    // the author's token is elevated on creation
    {
        let c = reg.strategy_of(0x5000).unwrap();
        assert_eq!(c.peers, vec![TOKEN]);
        assert_eq!(c.elevated_peers, vec![TOKEN]);
        assert_eq!(c.raid_id, 0x6000);
    }
    // a second subscriber extends the live session and keeps its state
    reg.subscribe(0x5000, 0x6000, OTHER, false, Vec::new(), Vec::new(), Vec::new());
    {
        let c = reg.strategy_of(0x5000).unwrap();
        assert_eq!(c.peers, vec![TOKEN, OTHER]);
        assert_eq!(c.elevated_peers, vec![TOKEN]);
        assert_eq!(c.players.len(), 1);
    }
    let p = reg.peer_of(OTHER).unwrap();
    assert_eq!(p.strategy_id, 0x5000);
    assert!(!p.is_author);
    // a session on another strategy does not touch the first
    reg.subscribe(0x5001, 0x6000, 0x2000, false, Vec::new(), Vec::new(), Vec::new());
    assert_eq!(reg.strategy_of(0x5000).unwrap().peers, vec![TOKEN, OTHER]);
    // eviction keeps the session until the last peer leaves
    assert_eq!(reg.evict_peer(TOKEN), EvictOutcome::Kept(0x5000));
    assert_eq!(reg.strategy_of(0x5000).unwrap().peers, vec![OTHER]);
    assert_eq!(reg.evict_peer(TOKEN), EvictOutcome::NoPeer);
    assert_eq!(reg.evict_peer(OTHER), EvictOutcome::Disposed(0x5000));
    assert!(reg.strategy_of(0x5000).is_none());
    assert!(reg.strategy_of(0x5001).is_some());
}

#[test]
fn replay_converges() {
    // the initialization snapshot plus the broadcast stream reproduces the
    // server's replica
    let mut server = ctx();
    let mut client = Replica {
        players: server.players.clone(),
        damage_options: server.damage_options.clone(),
        entries: server.entries.clone(),
    };
    let cat = catalog();
    let rd = raid();

    let d = DamageOption { damage: DAMAGE_D, num_shared: Some(2), primary_target: Some(PLAYER_P) };
    op_upsert_damage_option(&mut server, &rd, TOKEN, d).unwrap();
    apply_event(&mut client, &Event::UpsertDamageOption { damage_option: d });

    let out = op_mutate_entries(
        &mut server,
        &cat,
        &rd,
        TOKEN,
        &vec![Entry { id: E2, player: PLAYER_P, action: ACTION_A, use_at: 60 }],
        &Vec::new(),
    )
    .unwrap();
    apply_event(
        &mut client,
        &Event::MutateEntries { upserts: out.accepted_upserts, deletes: out.accepted_deletes },
    );

    op_update_player_job(&mut server, TOKEN, PLAYER_P, Some(Job::WAR)).unwrap();
    apply_event(&mut client, &Event::UpdatePlayerJob { id: PLAYER_P, job: Some(Job::WAR) });

    assert_eq!(client.players, server.players);
    assert_eq!(client.damage_options, server.damage_options);
    assert_eq!(client.entries, server.entries);
}
