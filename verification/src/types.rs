//! Data model of a strategy document and its in-memory session state.

use vstd::prelude::*;

verus! {

/// Entries may be scheduled up to this many seconds before the pull.
pub const MAX_COUNTDOWN: i32 = 1800;

/// The fixed set of job tags a player may hold.
#[derive(Clone, Copy, Debug, PartialEq, Eq, Structural)]
pub enum Job {
    PLD,
    WAR,
    DRK,
    GNB,
    WHM,
    AST,
    SCH,
    SGE,
    MNK,
    DRG,
    NIN,
    SAM,
    RPR,
    BRD,
    MCH,
    DNC,
    BLM,
    RDM,
    SMN,
    BLU,
    LB,
    PCT,
    VPR,
}

/// Status taxonomy of the service; the transport maps each variant to its
/// wire-level status code.
#[derive(Clone, Copy, Debug, PartialEq, Eq, Structural)]
pub enum ServiceError {
    InvalidArgument,
    Unauthenticated,
    PermissionDenied,
    FailedPrecondition,
    Aborted,
    Internal,
}

/// Catalog row for one action: recharge time and number of charges.
#[derive(Clone, Copy, Debug, PartialEq, Eq)]
pub struct ActionInfo {
    pub id: u128,
    pub cooldown: i32,
    pub charges: i32,
}

/// Catalog row for one damage instance of a raid.
#[derive(Clone, Copy, Debug, PartialEq, Eq)]
pub struct Damage {
    pub id: u128,
    pub max_shared: i32,
    pub num_targets: i32,
}

/// Immutable scaffold of the fight a strategy targets.
#[derive(Clone, Debug, PartialEq, Eq)]
pub struct RaidInfo {
    pub duration: i32,
    pub headcount: i32,
    pub damages: Vec<Damage>,
}

/// One member of the strategy's roster; the job may be unset.
#[derive(Clone, Copy, Debug, PartialEq, Eq)]
pub struct Player {
    pub id: u128,
    pub job: Option<Job>,
    pub order: i32,
}

/// One timed use of an action by a player on the timeline.
#[derive(Clone, Copy, Debug, PartialEq, Eq)]
pub struct Entry {
    pub id: u128,
    pub player: u128,
    pub action: u128,
    pub use_at: i32,
}

/// Per-damage configuration: shared count and primary target.
#[derive(Clone, Copy, Debug, PartialEq, Eq)]
pub struct DamageOption {
    pub damage: u128,
    pub num_shared: Option<i32>,
    pub primary_target: Option<u128>,
}

/// In-memory mirror of a strategy while at least one peer is attached.
#[derive(Clone, Debug, PartialEq, Eq)]
pub struct StrategyContext {
    pub raid_id: u128,
    pub peers: Vec<u128>,
    pub elevated_peers: Vec<u128>,
    pub players: Vec<Player>,
    pub damage_options: Vec<DamageOption>,
    pub entries: Vec<Entry>,
}

/// Per-subscriber record kept by the registry.
#[derive(Clone, Copy, Debug, PartialEq, Eq)]
pub struct PeerContext {
    pub strategy_id: u128,
    pub raid_id: u128,
    pub is_author: bool,
}

// ---------------------------------------------------------------------------
// Views: the entry, player and damage-option lists are keyed collections;
// contracts speak of them as maps from id to row.
// ---------------------------------------------------------------------------

pub open spec fn no_dup_entry_ids(s: Seq<Entry>) -> bool {
    forall|i: int, j: int| 0 <= i < j < s.len() ==> s[i].id != s[j].id
}

pub open spec fn entries_map(s: Seq<Entry>) -> Map<u128, Entry>
    decreases s.len(),
{
    if s.len() == 0 {
        Map::empty()
    } else {
        entries_map(s.drop_last()).insert(s.last().id, s.last())
    }
}

pub open spec fn no_dup_player_ids(s: Seq<Player>) -> bool {
    forall|i: int, j: int| 0 <= i < j < s.len() ==> s[i].id != s[j].id
}

pub open spec fn players_map(s: Seq<Player>) -> Map<u128, Player>
    decreases s.len(),
{
    if s.len() == 0 {
        Map::empty()
    } else {
        players_map(s.drop_last()).insert(s.last().id, s.last())
    }
}

pub open spec fn no_dup_damage_ids(s: Seq<DamageOption>) -> bool {
    forall|i: int, j: int| 0 <= i < j < s.len() ==> s[i].damage != s[j].damage
}

pub open spec fn damage_options_map(s: Seq<DamageOption>) -> Map<u128, DamageOption>
    decreases s.len(),
{
    if s.len() == 0 {
        Map::empty()
    } else {
        damage_options_map(s.drop_last()).insert(s.last().damage, s.last())
    }
}

pub open spec fn no_dup_damage_rows(s: Seq<Damage>) -> bool {
    forall|i: int, j: int| 0 <= i < j < s.len() ==> s[i].id != s[j].id
}

pub open spec fn damages_map(s: Seq<Damage>) -> Map<u128, Damage>
    decreases s.len(),
{
    if s.len() == 0 {
        Map::empty()
    } else {
        damages_map(s.drop_last()).insert(s.last().id, s.last())
    }
}

/// A raid table is well-formed when its damages are uniquely keyed.
pub open spec fn raid_wf(raid: RaidInfo) -> bool {
    no_dup_damage_rows(raid.damages@)
}

pub proof fn lemma_damages_map_dom(s: Seq<Damage>)
    ensures
        forall|id: u128|
            #[trigger] damages_map(s).dom().contains(id) <==> exists|i: int|
                0 <= i < s.len() && (#[trigger] s[i]).id == id,
        damages_map(s).dom().finite(),
    decreases s.len(),
{
    if s.len() > 0 {
        lemma_damages_map_dom(s.drop_last());
        let d = s.drop_last();
        assert forall|id: u128| #[trigger] damages_map(s).dom().contains(id) implies exists|i: int|
            0 <= i < s.len() && (#[trigger] s[i]).id == id by {
            if id == s.last().id {
                assert(s[s.len() - 1].id == id);
            } else {
                let i = choose|i: int| 0 <= i < d.len() && (#[trigger] d[i]).id == id;
                assert(s[i].id == id);
            }
        }
        assert forall|id: u128|
            exists|i: int| 0 <= i < s.len() && (#[trigger] s[i]).id == id implies #[trigger] damages_map(
            s,
        ).dom().contains(id) by {
            let i = choose|i: int| 0 <= i < s.len() && (#[trigger] s[i]).id == id;
            if i < s.len() - 1 {
                assert(d[i].id == id);
            }
        }
    }
}

pub proof fn lemma_damages_map_index(s: Seq<Damage>, i: int)
    requires
        no_dup_damage_rows(s),
        0 <= i < s.len(),
    ensures
        damages_map(s).dom().contains(s[i].id),
        damages_map(s)[s[i].id] == s[i],
    decreases s.len(),
{
    if i < s.len() - 1 {
        let d = s.drop_last();
        assert(d[i] == s[i]);
        lemma_damages_map_index(d, i);
        assert(s[i].id != s.last().id);
    }
}

pub proof fn lemma_entries_map_dom(s: Seq<Entry>)
    ensures
        forall|id: u128|
            #[trigger] entries_map(s).dom().contains(id) <==> exists|i: int|
                0 <= i < s.len() && (#[trigger] s[i]).id == id,
        entries_map(s).dom().finite(),
    decreases s.len(),
{
    if s.len() > 0 {
        lemma_entries_map_dom(s.drop_last());
        let d = s.drop_last();
        assert forall|id: u128| #[trigger] entries_map(s).dom().contains(id) implies exists|i: int|
            0 <= i < s.len() && (#[trigger] s[i]).id == id by {
            if id == s.last().id {
                assert(s[s.len() - 1].id == id);
            } else {
                let i = choose|i: int| 0 <= i < d.len() && (#[trigger] d[i]).id == id;
                assert(s[i].id == id);
            }
        }
        assert forall|id: u128|
            exists|i: int| 0 <= i < s.len() && (#[trigger] s[i]).id == id implies #[trigger] entries_map(
            s,
        ).dom().contains(id) by {
            let i = choose|i: int| 0 <= i < s.len() && (#[trigger] s[i]).id == id;
            if i < s.len() - 1 {
                assert(d[i].id == id);
            }
        }
    }
}

pub proof fn lemma_entries_map_index(s: Seq<Entry>, i: int)
    requires
        no_dup_entry_ids(s),
        0 <= i < s.len(),
    ensures
        entries_map(s).dom().contains(s[i].id),
        entries_map(s)[s[i].id] == s[i],
    decreases s.len(),
{
    if i < s.len() - 1 {
        let d = s.drop_last();
        assert(d[i] == s[i]);
        lemma_entries_map_index(d, i);
        assert(s[i].id != s.last().id);
    }
}

pub proof fn lemma_players_map_dom(s: Seq<Player>)
    ensures
        forall|id: u128|
            #[trigger] players_map(s).dom().contains(id) <==> exists|i: int|
                0 <= i < s.len() && (#[trigger] s[i]).id == id,
        players_map(s).dom().finite(),
    decreases s.len(),
{
    if s.len() > 0 {
        lemma_players_map_dom(s.drop_last());
        let d = s.drop_last();
        assert forall|id: u128| #[trigger] players_map(s).dom().contains(id) implies exists|i: int|
            0 <= i < s.len() && (#[trigger] s[i]).id == id by {
            if id == s.last().id {
                assert(s[s.len() - 1].id == id);
            } else {
                let i = choose|i: int| 0 <= i < d.len() && (#[trigger] d[i]).id == id;
                assert(s[i].id == id);
            }
        }
        assert forall|id: u128|
            exists|i: int| 0 <= i < s.len() && (#[trigger] s[i]).id == id implies #[trigger] players_map(
            s,
        ).dom().contains(id) by {
            let i = choose|i: int| 0 <= i < s.len() && (#[trigger] s[i]).id == id;
            if i < s.len() - 1 {
                assert(d[i].id == id);
            }
        }
    }
}

pub proof fn lemma_players_map_index(s: Seq<Player>, i: int)
    requires
        no_dup_player_ids(s),
        0 <= i < s.len(),
    ensures
        players_map(s).dom().contains(s[i].id),
        players_map(s)[s[i].id] == s[i],
    decreases s.len(),
{
    if i < s.len() - 1 {
        let d = s.drop_last();
        assert(d[i] == s[i]);
        lemma_players_map_index(d, i);
        assert(s[i].id != s.last().id);
    }
}

/// Replacing a player's row in place updates the map at that key.
pub proof fn lemma_players_map_update(s: Seq<Player>, i: int, p: Player)
    requires
        no_dup_player_ids(s),
        0 <= i < s.len(),
        s[i].id == p.id,
    ensures
        players_map(s.update(i, p)) == players_map(s).insert(p.id, p),
        no_dup_player_ids(s.update(i, p)),
    decreases s.len(),
{
    let su = s.update(i, p);
    assert(forall|k: int| 0 <= k < s.len() ==> (#[trigger] su[k]).id == s[k].id);
    if i == s.len() - 1 {
        assert(su.drop_last() =~= s.drop_last());
        assert(su.last() == p);
    } else {
        let d = s.drop_last();
        assert(d[i] == s[i]);
        lemma_players_map_update(d, i, p);
        assert(su.drop_last() =~= d.update(i, p));
        assert(su.last() == s.last());
        assert(s.last().id != p.id);
        assert(players_map(su) == players_map(d.update(i, p)).insert(s.last().id, s.last()));
        assert(players_map(su) =~= players_map(s).insert(p.id, p));
    }
}

pub proof fn lemma_damage_options_map_dom(s: Seq<DamageOption>)
    ensures
        forall|id: u128|
            #[trigger] damage_options_map(s).dom().contains(id) <==> exists|i: int|
                0 <= i < s.len() && (#[trigger] s[i]).damage == id,
        damage_options_map(s).dom().finite(),
    decreases s.len(),
{
    if s.len() > 0 {
        lemma_damage_options_map_dom(s.drop_last());
        let d = s.drop_last();
        assert forall|id: u128|
            #[trigger] damage_options_map(s).dom().contains(id) implies exists|i: int|
            0 <= i < s.len() && (#[trigger] s[i]).damage == id by {
            if id == s.last().damage {
                assert(s[s.len() - 1].damage == id);
            } else {
                let i = choose|i: int| 0 <= i < d.len() && (#[trigger] d[i]).damage == id;
                assert(s[i].damage == id);
            }
        }
        assert forall|id: u128|
            exists|i: int| 0 <= i < s.len() && (#[trigger] s[i]).damage == id implies #[trigger] damage_options_map(
            s,
        ).dom().contains(id) by {
            let i = choose|i: int| 0 <= i < s.len() && (#[trigger] s[i]).damage == id;
            if i < s.len() - 1 {
                assert(d[i].damage == id);
            }
        }
    }
}

pub proof fn lemma_damage_options_map_index(s: Seq<DamageOption>, i: int)
    requires
        no_dup_damage_ids(s),
        0 <= i < s.len(),
    ensures
        damage_options_map(s).dom().contains(s[i].damage),
        damage_options_map(s)[s[i].damage] == s[i],
    decreases s.len(),
{
    if i < s.len() - 1 {
        let d = s.drop_last();
        assert(d[i] == s[i]);
        lemma_damage_options_map_index(d, i);
        assert(s[i].damage != s.last().damage);
    }
}

} // verus!
