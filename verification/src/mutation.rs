//! The batched entry mutation pipeline.
//!
//! A batch carries upserts and deletes.  Upserts are validated one by one
//! (range, referenced player, job, cataloged action, duplicate ids), deletes
//! must not touch an id that is also being upserted, and then every affected
//! `(player, action)` group is checked as a whole: the group's surviving
//! entries merged with its upserts must stay within the action's charge
//! bound, else the whole group is rejected.  Rejected upserts are answered
//! with a reconciliation that restates the authoritative state.
//!
//! An upsert whose id already exists overwrites only `use_at`; player and
//! action stay as the current state has them.

use vstd::prelude::*;
use crate::catalog::ActionCatalog;
use crate::entries::{
    covering_ids, find_entry, group_feasible, in_group, map_minus_ids, remove_ids, use_ats,
    lemma_vec_group_occupancy,
};
use crate::feasibility::covers;
use crate::types::{
    Entry, Player, RaidInfo, ServiceError, MAX_COUNTDOWN, entries_map, no_dup_entry_ids,
    no_dup_player_ids, players_map, lemma_entries_map_dom, lemma_entries_map_index,
    lemma_players_map_dom, lemma_players_map_index,
};

verus! {

/// An upsert of an existing id keeps the entry's current player and action.
pub open spec fn resolve_upsert(pre: Map<u128, Entry>, u: Entry) -> Entry {
    if pre.dom().contains(u.id) {
        Entry { id: u.id, player: pre[u.id].player, action: pre[u.id].action, use_at: u.use_at }
    } else {
        u
    }
}

pub open spec fn resolved_upserts(pre: Map<u128, Entry>, ups: Seq<Entry>) -> Seq<Entry> {
    ups.map_values(|u: Entry| resolve_upsert(pre, u))
}

/// Last upsert carrying `id`, if any.
pub open spec fn resolved_lookup(rs: Seq<Entry>, id: u128) -> Option<Entry>
    decreases rs.len(),
{
    if rs.len() == 0 {
        None
    } else if rs.last().id == id {
        Some(rs.last())
    } else {
        resolved_lookup(rs.drop_last(), id)
    }
}

/// Cooldown data of action `a` when used by player `p`, if `p` exists, has a
/// job, and the job's catalog lists `a`.
pub open spec fn group_params(
    players: Seq<Player>,
    cat: ActionCatalog,
    p: u128,
    a: u128,
) -> Option<ActionInfo> {
    if players_map(players).dom().contains(p) {
        match players_map(players)[p].job {
            Some(j) => cat.action_entry(j, a),
            None => None,
        }
    } else {
        None
    }
}

/// Validation verdict for the upsert at slot `i`, in check order: duplicate
/// id, time range, player, job, cataloged action.
pub open spec fn upsert_slot_error(
    pre: Map<u128, Entry>,
    players: Seq<Player>,
    cat: ActionCatalog,
    raid: RaidInfo,
    ups: Seq<Entry>,
    i: int,
) -> Option<ServiceError> {
    let r = resolve_upsert(pre, ups[i]);
    if exists|k: int| 0 <= k < i && (#[trigger] ups[k]).id == ups[i].id {
        Some(ServiceError::FailedPrecondition)
    } else if !(-MAX_COUNTDOWN <= ups[i].use_at <= raid.duration) {
        Some(ServiceError::InvalidArgument)
    } else if group_params(players, cat, r.player, r.action) is None {
        Some(ServiceError::FailedPrecondition)
    } else {
        None
    }
}

pub open spec fn first_upsert_error_from(
    pre: Map<u128, Entry>,
    players: Seq<Player>,
    cat: ActionCatalog,
    raid: RaidInfo,
    ups: Seq<Entry>,
    i: int,
) -> Option<ServiceError>
    decreases ups.len() - i,
{
    if i < 0 || i >= ups.len() {
        None
    } else if upsert_slot_error(pre, players, cat, raid, ups, i) is Some {
        upsert_slot_error(pre, players, cat, raid, ups, i)
    } else {
        first_upsert_error_from(pre, players, cat, raid, ups, i + 1)
    }
}

/// A delete may not name an entry that is also being upserted.
pub open spec fn delete_conflict(pre: Map<u128, Entry>, ups: Seq<Entry>, dels: Seq<u128>) -> bool {
    exists|i: int, j: int|
        0 <= i < dels.len() && 0 <= j < ups.len() && pre.dom().contains(#[trigger] dels[i]) && (
        #[trigger] ups[j]).id == dels[i]
}

/// The verdict of the whole batch: the first failing upsert decides, then
/// the delete/upsert conflict.
pub open spec fn batch_error(
    pre: Map<u128, Entry>,
    players: Seq<Player>,
    cat: ActionCatalog,
    raid: RaidInfo,
    ups: Seq<Entry>,
    dels: Seq<u128>,
) -> Option<ServiceError> {
    match first_upsert_error_from(pre, players, cat, raid, ups, 0) {
        Some(e) => Some(e),
        None => if delete_conflict(pre, ups, dels) {
            Some(ServiceError::InvalidArgument)
        } else {
            None
        },
    }
}

/// Every group merged: survivors of the deletes, overridden by the upserts.
pub open spec fn merged_map(pre: Map<u128, Entry>, rs: Seq<Entry>, dels: Seq<u128>) -> Map<
    u128,
    Entry,
> {
    Map::new(
        |id: u128| resolved_lookup(rs, id) is Some || (pre.dom().contains(id) && !dels.contains(
            id,
        )),
        |id: u128| match resolved_lookup(rs, id) {
            Some(u) => u,
            None => pre[id],
        },
    )
}

/// A group is accepted when its merged contents respect the charge bound.
pub open spec fn group_accepted(
    pre: Map<u128, Entry>,
    rs: Seq<Entry>,
    dels: Seq<u128>,
    players: Seq<Player>,
    cat: ActionCatalog,
    p: u128,
    a: u128,
) -> bool {
    match group_params(players, cat, p, a) {
        Some(info) => group_feasible(
            merged_map(pre, rs, dels),
            p,
            a,
            info.cooldown as int,
            info.charges as int,
        ),
        None => false,
    }
}

/// The authoritative entries after the batch: deletes applied, accepted
/// groups replaced by their merged contents, rejected groups left alone.
pub open spec fn mutated_map(
    pre: Map<u128, Entry>,
    rs: Seq<Entry>,
    dels: Seq<u128>,
    players: Seq<Player>,
    cat: ActionCatalog,
) -> Map<u128, Entry> {
    Map::new(
        |id: u128| match resolved_lookup(rs, id) {
            Some(u) => group_accepted(pre, rs, dels, players, cat, u.player, u.action) || (
            pre.dom().contains(id) && !dels.contains(id)),
            None => pre.dom().contains(id) && !dels.contains(id),
        },
        |id: u128| match resolved_lookup(rs, id) {
            Some(u) => if group_accepted(pre, rs, dels, players, cat, u.player, u.action) {
                u
            } else {
                pre[id]
            },
            None => pre[id],
        },
    )
}

/// Domain invariant of an entry collection: keys consistent, times in
/// range, references resolved, and every group within its charge bound.
pub open spec fn entries_wf(
    m: Map<u128, Entry>,
    players: Seq<Player>,
    cat: ActionCatalog,
    raid: RaidInfo,
) -> bool {
    forall|id: u128| #[trigger]
        m.dom().contains(id) ==> {
            &&& m[id].id == id
            &&& -MAX_COUNTDOWN <= m[id].use_at <= raid.duration
            &&& group_params(players, cat, m[id].player, m[id].action) is Some
            &&& group_feasible(
                m,
                m[id].player,
                m[id].action,
                group_params(players, cat, m[id].player, m[id].action)->0.cooldown as int,
                group_params(players, cat, m[id].player, m[id].action)->0.charges as int,
            )
        }
}

use crate::types::ActionInfo;

/// Whether some entry of the list carries `id`.
pub fn entry_id_in(v: &Vec<Entry>, id: u128) -> (b: bool)
    ensures
        b == exists|j: int| 0 <= j < v@.len() && (#[trigger] v@[j]).id == id,
{
    let n = v.len();
    let mut i: usize = 0;
    while i < n
        invariant
            n == v@.len(),
            i <= n,
            forall|k: int| 0 <= k < i ==> (#[trigger] v@[k]).id != id,
        decreases n - i,
    {
        if v[i].id == id {
            assert(v@[i as int].id == id);
            return true;
        }
        i = i + 1;
    }
    false
}

/// Look a player up by id.
pub fn find_player(v: &Vec<Player>, id: u128) -> (r: Option<Player>)
    requires
        no_dup_player_ids(v@),
    ensures
        match r {
            Some(p) => players_map(v@).dom().contains(id) && players_map(v@)[id] == p && p.id
                == id,
            None => !players_map(v@).dom().contains(id),
        },
{
    proof {
        lemma_players_map_dom(v@);
    }
    let n = v.len();
    let mut i: usize = 0;
    while i < n
        invariant
            n == v@.len(),
            i <= n,
            no_dup_player_ids(v@),
            forall|k: int| 0 <= k < i ==> (#[trigger] v@[k]).id != id,
        decreases n - i,
    {
        if v[i].id == id {
            proof {
                lemma_players_map_index(v@, i as int);
            }
            return Some(v[i]);
        }
        i = i + 1;
    }
    proof {
        lemma_players_map_dom(v@);
    }
    None
}

/// Cooldown data for `(p, a)`, by lookup in the roster and the catalog.
pub fn group_params_exec(
    players: &Vec<Player>,
    cat: &ActionCatalog,
    p: u128,
    a: u128,
) -> (r: Option<ActionInfo>)
    requires
        no_dup_player_ids(players@),
        cat.wf(),
    ensures
        r == group_params(players@, *cat, p, a),
{
    match find_player(players, p) {
        None => None,
        Some(pl) => match pl.job {
            None => None,
            Some(j) => cat.get(j, a),
        },
    }
}

/// A `(player, action)` group key.
#[derive(Clone, Copy, Debug, PartialEq, Eq, Structural)]
pub struct GroupKey {
    pub player: u128,
    pub action: u128,
}

pub open spec fn key_of(e: Entry) -> GroupKey {
    GroupKey { player: e.player, action: e.action }
}

/// What `resolved_lookup` finds is an element with the looked-up id.
pub proof fn lemma_resolved_lookup(rs: Seq<Entry>, id: u128)
    ensures
        match resolved_lookup(rs, id) {
            Some(u) => u.id == id && exists|j: int| 0 <= j < rs.len() && #[trigger] rs[j] == u,
            None => forall|j: int| 0 <= j < rs.len() ==> (#[trigger] rs[j]).id != id,
        },
    decreases rs.len(),
{
    if rs.len() > 0 {
        let d = rs.drop_last();
        if rs.last().id == id {
            assert(rs[rs.len() - 1] == rs.last());
        } else {
            lemma_resolved_lookup(d, id);
            match resolved_lookup(rs, id) {
                Some(u) => {
                    let j = choose|j: int| 0 <= j < d.len() && #[trigger] d[j] == u;
                    assert(rs[j] == u);
                },
                None => {
                    assert forall|j: int| 0 <= j < rs.len() implies (#[trigger] rs[j]).id
                        != id by {
                        if j < rs.len() - 1 {
                            assert(rs[j] == d[j]);
                        } else {
                            assert(rs[j] == rs.last());
                        }
                    }
                },
            }
        }
    }
}

/// With duplicate-free ids the lookup returns the one matching element.
pub proof fn lemma_resolved_lookup_unique(rs: Seq<Entry>, j: int)
    requires
        no_dup_entry_ids(rs),
        0 <= j < rs.len(),
    ensures
        resolved_lookup(rs, rs[j].id) == Some(rs[j]),
    decreases rs.len(),
{
    if j < rs.len() - 1 {
        let d = rs.drop_last();
        assert(d[j] == rs[j]);
        lemma_resolved_lookup_unique(d, j);
        assert(rs.last().id != rs[j].id);
    }
}

/// Filtering the deletes to the known ids removes the same entries.
pub proof fn lemma_accepted_deletes(pre: Map<u128, Entry>, dels: Seq<u128>)
    ensures
        map_minus_ids(pre, dels.filter(|id: u128| pre.dom().contains(id))) == map_minus_ids(
            pre,
            dels,
        ),
{
    let pred = |id: u128| pre.dom().contains(id);
    let ad = dels.filter(pred);
    dels.filter_lemma(pred);
    assert forall|id: u128| ad.contains(id) <==> (dels.contains(id) && pre.dom().contains(
        id,
    )) by {
        if ad.contains(id) {
            let i = choose|i: int| 0 <= i < ad.len() && ad[i] == id;
            dels.lemma_filter_contains_rev(pred, id);
        }
        if dels.contains(id) && pre.dom().contains(id) {
            let i = choose|i: int| 0 <= i < dels.len() && dels[i] == id;
            assert(pred(dels[i]));
        }
    }
    assert(map_minus_ids(pre, ad) =~= map_minus_ids(pre, dels));
}

/// When slots `0..i` are clean the first error lies at or after `i`.
pub proof fn lemma_first_error_from(
    pre: Map<u128, Entry>,
    players: Seq<Player>,
    cat: ActionCatalog,
    raid: RaidInfo,
    ups: Seq<Entry>,
    i: int,
)
    requires
        0 <= i <= ups.len(),
        forall|k: int| 0 <= k < i ==> upsert_slot_error(pre, players, cat, raid, ups, k) is None,
    ensures
        first_upsert_error_from(pre, players, cat, raid, ups, 0) == first_upsert_error_from(
            pre,
            players,
            cat,
            raid,
            ups,
            i,
        ),
    decreases i,
{
    if i > 0 {
        lemma_first_error_from(pre, players, cat, raid, ups, i - 1);
    }
}

/// Resolve and validate the upserts in request order; the first failing
/// slot decides the error.
fn validate_upserts(
    entries: &Vec<Entry>,
    players: &Vec<Player>,
    cat: &ActionCatalog,
    raid: &RaidInfo,
    upserts: &Vec<Entry>,
) -> (r: Result<Vec<Entry>, ServiceError>)
    requires
        no_dup_entry_ids(entries@),
        no_dup_player_ids(players@),
        cat.wf(),
    ensures
        ({
            let pre = entries_map(entries@);
            match r {
                Ok(rs) => {
                    &&& first_upsert_error_from(pre, players@, *cat, *raid, upserts@, 0) is None
                    &&& rs@ == resolved_upserts(pre, upserts@)
                    &&& no_dup_entry_ids(rs@)
                    &&& forall|j: int|
                        0 <= j < rs@.len() ==> group_params(
                            players@,
                            *cat,
                            (#[trigger] rs@[j]).player,
                            rs@[j].action,
                        ) is Some
                    &&& forall|j: int|
                        0 <= j < rs@.len() ==> -MAX_COUNTDOWN <= (#[trigger] rs@[j]).use_at
                            <= raid.duration
                },
                Err(e) => first_upsert_error_from(pre, players@, *cat, *raid, upserts@, 0) == Some(
                    e,
                ),
            }
        }),
{
    let ghost pre = entries_map(entries@);
    let n = upserts.len();
    let mut rs: Vec<Entry> = Vec::new();
    proof {
        assert(rs@ =~= resolved_upserts(pre, upserts@.subrange(0, 0)));
    }
    let mut i: usize = 0;
    while i < n
        invariant
            n == upserts@.len(),
            i <= n,
            rs@.len() == i,
            no_dup_entry_ids(entries@),
            no_dup_player_ids(players@),
            cat.wf(),
            pre == entries_map(entries@),
            rs@ == resolved_upserts(pre, upserts@.subrange(0, i as int)),
            no_dup_entry_ids(rs@),
            forall|k: int|
                0 <= k < i ==> upsert_slot_error(
                    pre,
                    players@,
                    *cat,
                    *raid,
                    upserts@,
                    k,
                ) is None,
            forall|j: int|
                0 <= j < rs@.len() ==> group_params(
                    players@,
                    *cat,
                    (#[trigger] rs@[j]).player,
                    rs@[j].action,
                ) is Some,
            forall|j: int|
                0 <= j < rs@.len() ==> -MAX_COUNTDOWN <= (#[trigger] rs@[j]).use_at
                    <= raid.duration,
        decreases n - i,
    {
        let u = upserts[i];
        proof {
            assert(forall|j: int|
                0 <= j < i ==> (#[trigger] rs@[j]).id == upserts@[j].id);
        }
        if entry_id_in(&rs, u.id) {
            proof {
                let j = choose|j: int| 0 <= j < rs@.len() && (#[trigger] rs@[j]).id == u.id;
                assert(upserts@[j].id == upserts@[i as int].id);
                assert(upsert_slot_error(pre, players@, *cat, *raid, upserts@, i as int) == Some(
                    ServiceError::FailedPrecondition,
                ));
                lemma_first_error_from(pre, players@, *cat, *raid, upserts@, i as int);
            }
            return Err(ServiceError::FailedPrecondition);
        }
        proof {
            let ghost ui = upserts@[i as int];
            assert forall|k: int| 0 <= k < i implies (#[trigger] upserts@[k]).id != ui.id by {
                assert(rs@[k].id == upserts@[k].id);
                if upserts@[k].id == upserts@[i as int].id {
                    assert(rs@[k].id == u.id);
                }
            }
        }
        if u.use_at < -MAX_COUNTDOWN || u.use_at > raid.duration {
            proof {
                assert(upsert_slot_error(pre, players@, *cat, *raid, upserts@, i as int) == Some(
                    ServiceError::InvalidArgument,
                ));
                lemma_first_error_from(pre, players@, *cat, *raid, upserts@, i as int);
            }
            return Err(ServiceError::InvalidArgument);
        }
        let ru = match find_entry(entries, u.id) {
            Some(cur) => Entry { id: u.id, player: cur.player, action: cur.action, use_at: u.use_at },
            None => u,
        };
        proof {
            assert(ru == resolve_upsert(pre, upserts@[i as int]));
        }
        let params = group_params_exec(players, cat, ru.player, ru.action);
        if params.is_none() {
            proof {
                assert(upsert_slot_error(pre, players@, *cat, *raid, upserts@, i as int) == Some(
                    ServiceError::FailedPrecondition,
                ));
                lemma_first_error_from(pre, players@, *cat, *raid, upserts@, i as int);
            }
            return Err(ServiceError::FailedPrecondition);
        }
        rs.push(ru);
        proof {
            assert(upserts@.subrange(0, i + 1).drop_last() =~= upserts@.subrange(0, i as int));
            assert(upserts@.subrange(0, i + 1).last() == upserts@[i as int]);
            assert(rs@ =~= resolved_upserts(pre, upserts@.subrange(0, i + 1)));
            assert(upsert_slot_error(pre, players@, *cat, *raid, upserts@, i as int) is None);
        }
        i = i + 1;
    }
    proof {
        assert(upserts@.subrange(0, n as int) =~= upserts@);
        lemma_first_error_from(pre, players@, *cat, *raid, upserts@, n as int);
    }
    Ok(rs)
}

/// Record which deletes name known entries, rejecting a delete of an id
/// that is also being upserted.
fn collect_deletes(entries: &Vec<Entry>, rs: &Vec<Entry>, deletes: &Vec<u128>) -> (r: Result<
    Vec<u128>,
    ServiceError,
>)
    requires
        no_dup_entry_ids(entries@),
    ensures
        ({
            let pre = entries_map(entries@);
            match r {
                Ok(ad) => {
                    &&& ad@ == deletes@.filter(|id: u128| pre.dom().contains(id))
                    &&& !exists|i: int, j: int|
                        0 <= i < deletes@.len() && 0 <= j < rs@.len() && pre.dom().contains(
                            #[trigger] deletes@[i],
                        ) && (#[trigger] rs@[j]).id == deletes@[i]
                },
                Err(e) => {
                    &&& e == ServiceError::InvalidArgument
                    &&& exists|i: int, j: int|
                        0 <= i < deletes@.len() && 0 <= j < rs@.len() && pre.dom().contains(
                            #[trigger] deletes@[i],
                        ) && (#[trigger] rs@[j]).id == deletes@[i]
                },
            }
        }),
{
    let ghost pre = entries_map(entries@);
    let ghost pred = |id: u128| pre.dom().contains(id);
    let n = deletes.len();
    let mut ad: Vec<u128> = Vec::new();
    proof {
        reveal(Seq::filter);
        assert(ad@ =~= deletes@.subrange(0, 0).filter(pred));
    }
    let mut i: usize = 0;
    while i < n
        invariant
            n == deletes@.len(),
            i <= n,
            no_dup_entry_ids(entries@),
            pre == entries_map(entries@),
            pred == (|id: u128| pre.dom().contains(id)),
            ad@ == deletes@.subrange(0, i as int).filter(pred),
            forall|k: int, j: int|
                0 <= k < i && 0 <= j < rs@.len() ==> !(pre.dom().contains(#[trigger] deletes@[k])
                    && (#[trigger] rs@[j]).id == deletes@[k]),
        decreases n - i,
    {
        let id = deletes[i];
        let found = find_entry(entries, id);
        proof {
            assert(deletes@.subrange(0, i + 1).drop_last() =~= deletes@.subrange(0, i as int));
            assert(deletes@.subrange(0, i + 1).last() == deletes@[i as int]);
        }
        if found.is_some() {
            if entry_id_in(rs, id) {
                proof {
                    let j = choose|j: int| 0 <= j < rs@.len() && (#[trigger] rs@[j]).id == id;
                    assert(pre.dom().contains(deletes@[i as int]) && rs@[j].id
                        == deletes@[i as int]);
                }
                return Err(ServiceError::InvalidArgument);
            }
            ad.push(id);
            proof {
                reveal(Seq::filter);
                assert(pred(deletes@[i as int]));
                assert(ad@ =~= deletes@.subrange(0, i + 1).filter(pred));
            }
        } else {
            proof {
                reveal(Seq::filter);
                assert(!pred(deletes@[i as int]));
                assert(ad@ =~= deletes@.subrange(0, i + 1).filter(pred));
            }
        }
        i = i + 1;
    }
    proof {
        assert(deletes@.subrange(0, n as int) =~= deletes@);
    }
    Ok(ad)
}

/// Decide one `(player, action)` group: gather its surviving entries,
/// merge in its upserts, and check the charge bound of the merged set.
#[verifier::rlimit(60)]
fn decide_group(
    base: &Vec<Entry>,
    resolved: &Vec<Entry>,
    key: GroupKey,
    info: ActionInfo,
    Ghost(pre): Ghost<Map<u128, Entry>>,
    Ghost(dels): Ghost<Seq<u128>>,
    Ghost(players): Ghost<Seq<Player>>,
    Ghost(cat): Ghost<ActionCatalog>,
) -> (ok: bool)
    requires
        no_dup_entry_ids(base@),
        no_dup_entry_ids(resolved@),
        entries_map(base@) == map_minus_ids(pre, dels),
        group_params(players, cat, key.player, key.action) == Some(info),
    ensures
        ok == group_accepted(pre, resolved@, dels, players, cat, key.player, key.action),
{
    let p = key.player;
    let a = key.action;
    let ghost rs = resolved@;
    let ghost basemap = entries_map(base@);
    let ghost merged = merged_map(pre, rs, dels);

    // survivors of the group that are not being upserted
    let mut gvec: Vec<Entry> = Vec::new();
    let nb = base.len();
    proof {
        assert(entries_map(gvec@) =~= Map::new(
            |id: u128| (exists|k: int| 0 <= k < 0 && (#[trigger] base@[k]).id == id) && in_group(
                basemap[id],
                p,
                a,
            ) && resolved_lookup(rs, id) is None,
            |id: u128| basemap[id],
        ));
    }
    let mut i: usize = 0;
    while i < nb
        invariant
            nb == base@.len(),
            i <= nb,
            no_dup_entry_ids(base@),
            no_dup_entry_ids(resolved@),
            rs == resolved@,
            basemap == entries_map(base@),
            no_dup_entry_ids(gvec@),
            forall|m: int| 0 <= m < gvec@.len() ==> in_group(#[trigger] gvec@[m], p, a),
            entries_map(gvec@) == Map::new(
                |id: u128| (exists|k: int|
                    0 <= k < i && (#[trigger] base@[k]).id == id) && in_group(basemap[id], p, a)
                    && resolved_lookup(rs, id) is None,
                |id: u128| basemap[id],
            ),
        decreases nb - i,
    {
        let e = base[i];
        proof {
            lemma_entries_map_index(base@, i as int);
            assert(basemap[e.id] == e);
            assert(base@[i as int].id == e.id);
        }
        if e.player == p && e.action == a {
            if !entry_id_in(resolved, e.id) {
                proof {
                    lemma_resolved_lookup(rs, e.id);
                    if resolved_lookup(rs, e.id) is Some {
                        let u = resolved_lookup(rs, e.id)->0;
                        let jj = choose|jj: int| 0 <= jj < rs.len() && #[trigger] rs[jj] == u;
                        assert(rs[jj].id == e.id);
                    }
                    // the pushed id is fresh in gvec
                    assert forall|m: int| 0 <= m < gvec@.len() implies (#[trigger] gvec@[m]).id
                        != e.id by {
                        lemma_entries_map_index(gvec@, m);
                        assert(entries_map(gvec@).dom().contains(gvec@[m].id));
                        if gvec@[m].id == e.id {
                            let k = choose|k: int|
                                0 <= k < i && (#[trigger] base@[k]).id == e.id;
                            assert(base@[k].id == base@[i as int].id);
                        }
                    }
                }
                let ghost g0 = gvec@;
                gvec.push(e);
                proof {
                    assert(gvec@.drop_last() =~= g0);
                    assert(gvec@.last() == e);
                    assert(forall|m: int, l: int|
                        0 <= m < l < gvec@.len() ==> gvec@[m].id != gvec@[l].id);
                    assert(entries_map(gvec@) =~= Map::new(
                        |id: u128| (exists|k: int|
                            0 <= k < i + 1 && (#[trigger] base@[k]).id == id) && in_group(
                            basemap[id],
                            p,
                            a,
                        ) && resolved_lookup(rs, id) is None,
                        |id: u128| basemap[id],
                    ));
                }
            } else {
                proof {
                    lemma_resolved_lookup(rs, e.id);
                    assert(entries_map(gvec@) =~= Map::new(
                        |id: u128| (exists|k: int|
                            0 <= k < i + 1 && (#[trigger] base@[k]).id == id) && in_group(
                            basemap[id],
                            p,
                            a,
                        ) && resolved_lookup(rs, id) is None,
                        |id: u128| basemap[id],
                    ));
                }
            }
        } else {
            proof {
                assert(entries_map(gvec@) =~= Map::new(
                    |id: u128| (exists|k: int|
                        0 <= k < i + 1 && (#[trigger] base@[k]).id == id) && in_group(
                        basemap[id],
                        p,
                        a,
                    ) && resolved_lookup(rs, id) is None,
                    |id: u128| basemap[id],
                ));
            }
        }
        i = i + 1;
    }
    proof {
        lemma_entries_map_dom(base@);
        assert(entries_map(gvec@) =~= Map::new(
            |id: u128| basemap.dom().contains(id) && in_group(basemap[id], p, a)
                && resolved_lookup(rs, id) is None,
            |id: u128| basemap[id],
        ));
    }

    // the group's upserts
    let nr = resolved.len();
    let mut j: usize = 0;
    while j < nr
        invariant
            nr == resolved@.len(),
            rs == resolved@,
            j <= nr,
            no_dup_entry_ids(resolved@),
            basemap == entries_map(base@),
            no_dup_entry_ids(gvec@),
            forall|m: int| 0 <= m < gvec@.len() ==> in_group(#[trigger] gvec@[m], p, a),
            entries_map(gvec@) == Map::new(
                |id: u128| (basemap.dom().contains(id) && in_group(basemap[id], p, a)
                    && resolved_lookup(rs, id) is None) || (exists|jj: int|
                    0 <= jj < j && (#[trigger] rs[jj]).id == id && rs[jj].player == p && rs[jj].action == a),
                |id: u128| match resolved_lookup(rs, id) {
                    Some(u) => u,
                    None => basemap[id],
                },
            ),
        decreases nr - j,
    {
        let u = resolved[j];
        if u.player == p && u.action == a {
            proof {
                lemma_resolved_lookup_unique(rs, j as int);
                assert(resolved_lookup(rs, u.id) == Some(u));
                assert forall|m: int| 0 <= m < gvec@.len() implies (#[trigger] gvec@[m]).id
                    != u.id by {
                    lemma_entries_map_index(gvec@, m);
                    assert(entries_map(gvec@).dom().contains(gvec@[m].id));
                    if gvec@[m].id == u.id {
                        if exists|jj: int|
                            0 <= jj < j && (#[trigger] rs[jj]).id == u.id && rs[jj].player == p
                                && rs[jj].action == a {
                            let jj = choose|jj: int|
                                0 <= jj < j && (#[trigger] rs[jj]).id == u.id && rs[jj].player
                                    == p && rs[jj].action == a;
                            assert(rs[jj].id == rs[j as int].id);
                        }
                    }
                }
            }
            let ghost g0 = gvec@;
            gvec.push(u);
            proof {
                assert(gvec@.drop_last() =~= g0);
                assert(gvec@.last() == u);
                assert(forall|m: int, l: int|
                    0 <= m < l < gvec@.len() ==> gvec@[m].id != gvec@[l].id);
                assert(rs[j as int].id == u.id && rs[j as int].player == p && rs[j as int].action
                    == a);
                assert(entries_map(gvec@) =~= Map::new(
                    |id: u128| (basemap.dom().contains(id) && in_group(basemap[id], p, a)
                        && resolved_lookup(rs, id) is None) || (exists|jj: int|
                        0 <= jj < j + 1 && (#[trigger] rs[jj]).id == id && rs[jj].player == p
                            && rs[jj].action == a),
                    |id: u128| match resolved_lookup(rs, id) {
                        Some(uu) => uu,
                        None => basemap[id],
                    },
                ));
            }
        } else {
            proof {
                assert(!(rs[j as int].player == p && rs[j as int].action == a));
                assert(entries_map(gvec@) =~= Map::new(
                    |id: u128| (basemap.dom().contains(id) && in_group(basemap[id], p, a)
                        && resolved_lookup(rs, id) is None) || (exists|jj: int|
                        0 <= jj < j + 1 && (#[trigger] rs[jj]).id == id && rs[jj].player == p
                            && rs[jj].action == a),
                    |id: u128| match resolved_lookup(rs, id) {
                        Some(uu) => uu,
                        None => basemap[id],
                    },
                ));
            }
        }
        j = j + 1;
    }

    let ghost gm = entries_map(gvec@);
    proof {
        // the gathered list holds exactly the merged contents of this group
        assert forall|id: u128| #[trigger]
            gm.dom().contains(id) <==> (merged.dom().contains(id) && in_group(
            merged[id],
            p,
            a,
        )) by {
            lemma_resolved_lookup(rs, id);
            match resolved_lookup(rs, id) {
                Some(u) => {
                    let j0 = choose|j0: int| 0 <= j0 < rs.len() && #[trigger] rs[j0] == u;
                    assert forall|jj: int|
                        0 <= jj < rs.len() && (#[trigger] rs[jj]).id == id implies rs[jj]
                        == u by {
                        if jj != j0 {
                            assert(rs[jj].id == rs[j0].id);
                        }
                    }
                },
                None => {},
            }
        }
        assert forall|id: u128| #[trigger] gm.dom().contains(id) implies gm[id]
            == merged[id] by {
            lemma_resolved_lookup(rs, id);
        }
    }

    // start times of the merged group
    let ng = gvec.len();
    let mut ua: Vec<i32> = Vec::new();
    let mut k: usize = 0;
    while k < ng
        invariant
            ng == gvec@.len(),
            k <= ng,
            ua@.len() == k,
            forall|m: int| 0 <= m < k ==> ua@[m] == (#[trigger] gvec@[m]).use_at,
        decreases ng - k,
    {
        let t = gvec[k].use_at;
        ua.push(t);
        k = k + 1;
    }
    proof {
        assert(ua@ =~= use_ats(gvec@));
    }

    let ok = crate::feasibility::fits_charges(&ua, info.cooldown, info.charges);
    proof {
        let cd = info.cooldown as int;
        let ch = info.charges as int;
        assert forall|t: int|
            crate::feasibility::occupancy(ua@, cd, t) == crate::entries::group_occupancy(
                merged,
                p,
                a,
                cd,
                t,
            ) by {
            lemma_vec_group_occupancy(gvec@, p, a, cd, t);
            assert(covering_ids(gm, p, a, cd, t) =~= covering_ids(merged, p, a, cd, t));
        }
        assert(crate::feasibility::feasible(ua@, cd, ch) == group_feasible(
            merged,
            p,
            a,
            cd,
            ch,
        )) by {
            if crate::feasibility::feasible(ua@, cd, ch) {
                assert forall|t: int|
                    crate::entries::group_occupancy(merged, p, a, cd, t) <= ch by {
                    assert(crate::feasibility::occupancy(ua@, cd, t) <= ch);
                }
            }
            if group_feasible(merged, p, a, cd, ch) {
                assert forall|t: int| crate::feasibility::occupancy(ua@, cd, t) <= ch by {
                    assert(crate::entries::group_occupancy(merged, p, a, cd, t) <= ch);
                }
            }
        }
    }
    ok
}

/// Some slot of `keys` names the group `(p, a)`.
pub open spec fn has_key(keys: Seq<GroupKey>, p: u128, a: u128) -> bool {
    exists|k: int| 0 <= k < keys.len() && (#[trigger] keys[k]).player == p && keys[k].action == a
}

/// Some upsert of `rs` belongs to the group `(p, a)`.
pub open spec fn has_group(rs: Seq<Entry>, p: u128, a: u128) -> bool {
    exists|j: int| 0 <= j < rs.len() && (#[trigger] rs[j]).player == p && rs[j].action == a
}

/// The distinct `(player, action)` keys of the upserts, in first-appearance
/// order.
fn collect_keys(rs: &Vec<Entry>) -> (keys: Vec<GroupKey>)
    ensures
        forall|j: int|
            0 <= j < rs@.len() ==> has_key(keys@, (#[trigger] rs@[j]).player, rs@[j].action),
        forall|k: int|
            0 <= k < keys@.len() ==> has_group(rs@, (#[trigger] keys@[k]).player, keys@[k].action),
{
    let n = rs.len();
    let mut keys: Vec<GroupKey> = Vec::new();
    let mut i: usize = 0;
    while i < n
        invariant
            n == rs@.len(),
            i <= n,
            forall|j: int|
                0 <= j < i ==> has_key(keys@, (#[trigger] rs@[j]).player, rs@[j].action),
            forall|k: int|
                0 <= k < keys@.len() ==> has_group(rs@, (#[trigger] keys@[k]).player, keys@[k].action),
        decreases n - i,
    {
        let u = rs[i];
        let nk = keys.len();
        let mut found = false;
        let mut k: usize = 0;
        while k < nk
            invariant
                nk == keys@.len(),
                k <= nk,
                found ==> has_key(keys@, u.player, u.action),
            decreases nk - k,
        {
            if keys[k].player == u.player && keys[k].action == u.action {
                proof {
                    assert((keys@[k as int]).player == u.player);
                }
                found = true;
            }
            k = k + 1;
        }
        if !found {
            let ghost keys0 = keys@;
            keys.push(GroupKey { player: u.player, action: u.action });
            proof {
                let last = keys@.len() - 1;
                assert(keys@[last].player == u.player && keys@[last].action == u.action);
                assert(has_key(keys@, u.player, u.action));
                assert forall|j: int| 0 <= j < i implies has_key(
                    keys@,
                    (#[trigger] rs@[j]).player,
                    rs@[j].action,
                ) by {
                    let k0 = choose|k0: int|
                        0 <= k0 < keys0.len() && (#[trigger] keys0[k0]).player == rs@[j].player
                            && keys0[k0].action == rs@[j].action;
                    assert(keys@[k0] == keys0[k0]);
                }
                assert forall|k0: int| 0 <= k0 < keys@.len() implies has_group(
                    rs@,
                    (#[trigger] keys@[k0]).player,
                    keys@[k0].action,
                ) by {
                    if k0 == last {
                        assert(rs@[i as int].player == u.player && rs@[i as int].action
                            == u.action);
                    } else {
                        assert(keys@[k0] == keys0[k0]);
                    }
                }
            }
        }
        proof {
            assert(has_key(keys@, u.player, u.action));
            assert(u == rs@[i as int]);
        }
        i = i + 1;
    }
    keys
}

/// Read the recorded verdict of the group `(p, a)`.
fn decision_for(keys: &Vec<GroupKey>, decisions: &Vec<bool>, p: u128, a: u128) -> (b: bool)
    requires
        keys@.len() == decisions@.len(),
        has_key(keys@, p, a),
    ensures
        exists|i: int|
            0 <= i < keys@.len() && (#[trigger] keys@[i]).player == p && keys@[i].action == a
                && decisions@[i] == b,
{
    let n = keys.len();
    let mut i: usize = 0;
    while i < n
        invariant
            n == keys@.len(),
            n == decisions@.len(),
            i <= n,
            has_key(keys@, p, a),
            forall|k: int|
                0 <= k < i ==> !((#[trigger] keys@[k]).player == p && keys@[k].action == a),
        decreases n - i,
    {
        if keys[i].player == p && keys[i].action == a {
            let b = decisions[i];
            proof {
                assert((keys@[i as int]).player == p && keys@[i as int].action == a
                    && decisions@[i as int] == b);
            }
            return b;
        }
        i = i + 1;
    }
    proof {
        let k = choose|k: int|
            0 <= k < keys@.len() && (#[trigger] keys@[k]).player == p && keys@[k].action == a;
        assert(false);
    }
    false
}

/// Last upsert of the list carrying `id`.
fn resolved_find(rs: &Vec<Entry>, id: u128) -> (r: Option<Entry>)
    ensures
        r == resolved_lookup(rs@, id),
{
    let n = rs.len();
    let mut cur: Option<Entry> = None;
    proof {
        assert(rs@.subrange(0, 0) =~= Seq::<Entry>::empty());
    }
    let mut i: usize = 0;
    while i < n
        invariant
            n == rs@.len(),
            i <= n,
            cur == resolved_lookup(rs@.subrange(0, i as int), id),
        decreases n - i,
    {
        proof {
            assert(rs@.subrange(0, i + 1).drop_last() =~= rs@.subrange(0, i as int));
            assert(rs@.subrange(0, i + 1).last() == rs@[i as int]);
        }
        if rs[i].id == id {
            cur = Some(rs[i]);
        }
        i = i + 1;
    }
    proof {
        assert(rs@.subrange(0, n as int) =~= rs@);
    }
    cur
}

/// What an accepted batch leaves behind and what is sent where.
#[derive(Clone, Debug, PartialEq, Eq)]
pub struct MutationOutcome {
    /// Authoritative entries after the batch.
    pub entries_after: Vec<Entry>,
    /// Upserts whose group passed; broadcast to the other peers.
    pub accepted_upserts: Vec<Entry>,
    /// Deletes that named known entries; broadcast to the other peers.
    pub accepted_deletes: Vec<u128>,
    /// Authoritative rows for rejected upserts of known ids; sent back to
    /// the caller.
    pub reconcile_upserts: Vec<Entry>,
    /// Rejected upsert ids unknown to the server; sent back as deletes.
    pub reconcile_deletes: Vec<u128>,
}

/// Full characterization of an accepted batch.
pub open spec fn mutation_outcome_ok(
    pre: Map<u128, Entry>,
    rs: Seq<Entry>,
    dels: Seq<u128>,
    players: Seq<Player>,
    cat: ActionCatalog,
    out: MutationOutcome,
) -> bool {
    &&& no_dup_entry_ids(out.entries_after@)
    &&& entries_map(out.entries_after@) == mutated_map(pre, rs, dels, players, cat)
    &&& out.accepted_deletes@ == dels.filter(|id: u128| pre.dom().contains(id))
    &&& out.accepted_upserts@ == rs.filter(
        |u: Entry| group_accepted(pre, rs, dels, players, cat, u.player, u.action),
    )
    &&& out.reconcile_upserts@ == rs.filter(
        |u: Entry|
            !group_accepted(pre, rs, dels, players, cat, u.player, u.action)
                && pre.dom().contains(u.id),
    ).map_values(|u: Entry| pre[u.id])
    &&& out.reconcile_deletes@ == rs.filter(
        |u: Entry|
            !group_accepted(pre, rs, dels, players, cat, u.player, u.action)
                && !pre.dom().contains(u.id),
    ).map_values(|u: Entry| u.id)
}

/// Apply one entry batch to the authoritative entries.
///
/// On success the returned outcome carries the new entry list, the accepted
/// changes for the peer broadcast, and the reconciliation for the caller.
/// On failure nothing is changed and the error is the batch's verdict.
#[verifier::rlimit(100)]
pub fn apply_entry_mutation(
    players: &Vec<Player>,
    cat: &ActionCatalog,
    raid: &RaidInfo,
    entries: &Vec<Entry>,
    upserts: &Vec<Entry>,
    deletes: &Vec<u128>,
) -> (r: Result<MutationOutcome, ServiceError>)
    requires
        no_dup_entry_ids(entries@),
        no_dup_player_ids(players@),
        cat.wf(),
    ensures
        ({
            let pre = entries_map(entries@);
            let rs = resolved_upserts(pre, upserts@);
            match r {
                Err(e) => batch_error(pre, players@, *cat, *raid, upserts@, deletes@) == Some(e),
                Ok(out) => batch_error(pre, players@, *cat, *raid, upserts@, deletes@) is None
                    && mutation_outcome_ok(pre, rs, deletes@, players@, *cat, out),
            }
        }),
{
    let ghost pre = entries_map(entries@);
    let ghost rs_g = resolved_upserts(pre, upserts@);
    let ghost dels = deletes@;

    let resolved = match validate_upserts(entries, players, cat, raid, upserts) {
        Ok(v) => v,
        Err(e) => {
            return Err(e);
        },
    };
    proof {
        assert(resolved@ == rs_g);
        assert(forall|j: int| 0 <= j < rs_g.len() ==> (#[trigger] rs_g[j]).id == upserts@[j].id);
    }

    let accepted_deletes = match collect_deletes(entries, &resolved, deletes) {
        Ok(v) => v,
        Err(e) => {
            proof {
                let (i, j) = choose|i: int, j: int|
                    0 <= i < dels.len() && 0 <= j < rs_g.len() && pre.dom().contains(
                        #[trigger] dels[i],
                    ) && (#[trigger] rs_g[j]).id == dels[i];
                assert(upserts@[j].id == dels[i]);
                assert(delete_conflict(pre, upserts@, dels));
            }
            return Err(e);
        },
    };
    proof {
        assert(!delete_conflict(pre, upserts@, dels)) by {
            if delete_conflict(pre, upserts@, dels) {
                let (i, j) = choose|i: int, j: int|
                    0 <= i < dels.len() && 0 <= j < upserts@.len() && pre.dom().contains(
                        #[trigger] dels[i],
                    ) && (#[trigger] upserts@[j]).id == dels[i];
                assert(rs_g[j].id == dels[i]);
            }
        }
        assert(batch_error(pre, players@, *cat, *raid, upserts@, dels) is None);
    }

    let base = remove_ids(entries, &accepted_deletes);
    let ghost basemap = entries_map(base@);
    proof {
        lemma_accepted_deletes(pre, dels);
        assert(basemap == map_minus_ids(pre, dels));
    }

    let keys = collect_keys(&resolved);
    let nk = keys.len();
    let mut decisions: Vec<bool> = Vec::new();
    let mut g: usize = 0;
    while g < nk
        invariant
            nk == keys@.len(),
            g <= nk,
            decisions@.len() == g,
            no_dup_entry_ids(base@),
            no_dup_entry_ids(resolved@),
            rs_g == resolved@,
            basemap == entries_map(base@),
            basemap == map_minus_ids(pre, dels),
            no_dup_player_ids(players@),
            cat.wf(),
            forall|j: int|
                0 <= j < rs_g.len() ==> group_params(
                    players@,
                    *cat,
                    (#[trigger] rs_g[j]).player,
                    rs_g[j].action,
                ) is Some,
            forall|k: int|
                0 <= k < keys@.len() ==> has_group(
                    rs_g,
                    (#[trigger] keys@[k]).player,
                    keys@[k].action,
                ),
            forall|k: int|
                0 <= k < g ==> decisions@[k] == group_accepted(
                    pre,
                    rs_g,
                    dels,
                    players@,
                    *cat,
                    (#[trigger] keys@[k]).player,
                    keys@[k].action,
                ),
        decreases nk - g,
    {
        let key = keys[g];
        let info_opt = group_params_exec(players, cat, key.player, key.action);
        proof {
            let j = choose|j: int|
                0 <= j < rs_g.len() && (#[trigger] rs_g[j]).player == key.player && rs_g[j].action
                    == key.action;
            assert(group_params(players@, *cat, key.player, key.action) is Some);
        }
        let info = match info_opt {
            Some(x) => x,
            None => {
                proof {
                    assert(false);
                }
                ActionInfo { id: 0, cooldown: 0, charges: 0 }
            },
        };
        let ok = decide_group(
            &base,
            &resolved,
            key,
            info,
            Ghost(pre),
            Ghost(dels),
            Ghost(players@),
            Ghost(*cat),
        );
        decisions.push(ok);
        g = g + 1;
    }

    let ghost mm = mutated_map(pre, rs_g, dels, players@, *cat);

    // survivors keep their slot; an accepted upsert overrides its entry
    let nb = base.len();
    let mut out_entries: Vec<Entry> = Vec::new();
    proof {
        assert(entries_map(out_entries@) =~= Map::new(
            |id: u128| exists|k: int| 0 <= k < 0 && (#[trigger] base@[k]).id == id,
            |id: u128| mm[id],
        ));
    }
    let mut i: usize = 0;
    while i < nb
        invariant
            nb == base@.len(),
            i <= nb,
            no_dup_entry_ids(base@),
            no_dup_entry_ids(resolved@),
            no_dup_entry_ids(rs_g),
            rs_g == resolved@,
            basemap == entries_map(base@),
            basemap == map_minus_ids(pre, dels),
            mm == mutated_map(pre, rs_g, dels, players@, *cat),
            pre == entries_map(entries@),
            no_dup_entry_ids(entries@),
            nk == keys@.len(),
            decisions@.len() == nk,
            forall|j: int|
                0 <= j < rs_g.len() ==> has_key(
                    keys@,
                    (#[trigger] rs_g[j]).player,
                    rs_g[j].action,
                ),
            forall|k: int|
                0 <= k < nk ==> decisions@[k] == group_accepted(
                    pre,
                    rs_g,
                    dels,
                    players@,
                    *cat,
                    (#[trigger] keys@[k]).player,
                    keys@[k].action,
                ),
            no_dup_entry_ids(out_entries@),
            entries_map(out_entries@) == Map::new(
                |id: u128| exists|k: int| 0 <= k < i && (#[trigger] base@[k]).id == id,
                |id: u128| mm[id],
            ),
        decreases nb - i,
    {
        let e = base[i];
        proof {
            lemma_entries_map_index(base@, i as int);
            assert(basemap[e.id] == e && basemap.dom().contains(e.id));
            assert(pre.dom().contains(e.id) && !dels.contains(e.id));
            assert(pre[e.id] == e);
            assert forall|m: int| 0 <= m < out_entries@.len() implies (
            #[trigger] out_entries@[m]).id != e.id by {
                lemma_entries_map_index(out_entries@, m);
                assert(entries_map(out_entries@).dom().contains(out_entries@[m].id));
                if out_entries@[m].id == e.id {
                    let k = choose|k: int| 0 <= k < i && (#[trigger] base@[k]).id == e.id;
                    assert(base@[k].id == base@[i as int].id);
                }
            }
        }
        let found = resolved_find(&resolved, e.id);
        let to_push: Entry;
        match found {
            Some(u) => {
                proof {
                    lemma_resolved_lookup(rs_g, e.id);
                    let j0 = choose|j0: int| 0 <= j0 < rs_g.len() && #[trigger] rs_g[j0] == u;
                    assert(has_key(keys@, u.player, u.action));
                }
                let acc = decision_for(&keys, &decisions, u.player, u.action);
                proof {
                    let ki = choose|ki: int|
                        0 <= ki < keys@.len() && (#[trigger] keys@[ki]).player == u.player
                            && keys@[ki].action == u.action && decisions@[ki] == acc;
                    assert(acc == group_accepted(
                        pre,
                        rs_g,
                        dels,
                        players@,
                        *cat,
                        u.player,
                        u.action,
                    ));
                }
                if acc {
                    to_push = u;
                } else {
                    to_push = e;
                }
            },
            None => {
                to_push = e;
            },
        }
        proof {
            assert(mm.dom().contains(e.id) && mm[e.id] == to_push && to_push.id == e.id) by {
                lemma_resolved_lookup(rs_g, e.id);
            }
        }
        let ghost out0 = out_entries@;
        out_entries.push(to_push);
        proof {
            assert(out_entries@.drop_last() =~= out0);
            assert(out_entries@.last() == to_push);
            assert(entries_map(out_entries@) == entries_map(out0).insert(e.id, to_push));
            assert(forall|m: int, l: int|
                0 <= m < l < out_entries@.len() ==> out_entries@[m].id != out_entries@[l].id);
            assert(entries_map(out_entries@) =~= Map::new(
                |id: u128| exists|k: int| 0 <= k < i + 1 && (#[trigger] base@[k]).id == id,
                |id: u128| mm[id],
            ));
        }
        i = i + 1;
    }
    proof {
        lemma_entries_map_dom(base@);
        assert(entries_map(out_entries@) =~= Map::new(
            |id: u128| basemap.dom().contains(id),
            |id: u128| mm[id],
        ));
    }

    // accepted upserts of new ids join the list
    let nr = resolved.len();
    let mut j2: usize = 0;
    while j2 < nr
        invariant
            nr == resolved@.len(),
            j2 <= nr,
            no_dup_entry_ids(base@),
            no_dup_entry_ids(resolved@),
            no_dup_entry_ids(rs_g),
            rs_g == resolved@,
            basemap == entries_map(base@),
            basemap == map_minus_ids(pre, dels),
            mm == mutated_map(pre, rs_g, dels, players@, *cat),
            pre == entries_map(entries@),
            no_dup_entry_ids(entries@),
            nk == keys@.len(),
            decisions@.len() == nk,
            !delete_conflict(pre, rs_g, dels),
            forall|j: int|
                0 <= j < rs_g.len() ==> has_key(
                    keys@,
                    (#[trigger] rs_g[j]).player,
                    rs_g[j].action,
                ),
            forall|k: int|
                0 <= k < nk ==> decisions@[k] == group_accepted(
                    pre,
                    rs_g,
                    dels,
                    players@,
                    *cat,
                    (#[trigger] keys@[k]).player,
                    keys@[k].action,
                ),
            no_dup_entry_ids(out_entries@),
            entries_map(out_entries@) == Map::new(
                |id: u128| basemap.dom().contains(id) || (exists|jj: int|
                    0 <= jj < j2 && (#[trigger] rs_g[jj]).id == id && !pre.dom().contains(id)
                        && group_accepted(
                        pre,
                        rs_g,
                        dels,
                        players@,
                        *cat,
                        rs_g[jj].player,
                        rs_g[jj].action,
                    )),
                |id: u128| mm[id],
            ),
        decreases nr - j2,
    {
        let u = resolved[j2];
        if !entry_id_in(&base, u.id) {
            proof {
                lemma_entries_map_dom(base@);
                assert(!basemap.dom().contains(u.id));
                assert(!pre.dom().contains(u.id)) by {
                    if pre.dom().contains(u.id) {
                        assert(dels.contains(u.id));
                        let di = choose|di: int| 0 <= di < dels.len() && dels[di] == u.id;
                        assert(pre.dom().contains(dels[di]) && rs_g[j2 as int].id == dels[di]);
                    }
                }
                assert(has_key(keys@, u.player, u.action));
            }
            let acc = decision_for(&keys, &decisions, u.player, u.action);
            proof {
                let ki = choose|ki: int|
                    0 <= ki < keys@.len() && (#[trigger] keys@[ki]).player == u.player
                        && keys@[ki].action == u.action && decisions@[ki] == acc;
                assert(acc == group_accepted(
                    pre,
                    rs_g,
                    dels,
                    players@,
                    *cat,
                    u.player,
                    u.action,
                ));
            }
            if acc {
                proof {
                    lemma_resolved_lookup_unique(rs_g, j2 as int);
                    assert(mm.dom().contains(u.id) && mm[u.id] == u);
                    assert forall|m: int| 0 <= m < out_entries@.len() implies (
                    #[trigger] out_entries@[m]).id != u.id by {
                        lemma_entries_map_index(out_entries@, m);
                        assert(entries_map(out_entries@).dom().contains(out_entries@[m].id));
                        if out_entries@[m].id == u.id {
                            let jj = choose|jj: int|
                                0 <= jj < j2 && (#[trigger] rs_g[jj]).id == u.id
                                    && !pre.dom().contains(u.id) && group_accepted(
                                    pre,
                                    rs_g,
                                    dels,
                                    players@,
                                    *cat,
                                    rs_g[jj].player,
                                    rs_g[jj].action,
                                );
                            assert(rs_g[jj].id == rs_g[j2 as int].id);
                        }
                    }
                }
                let ghost out0 = out_entries@;
                out_entries.push(u);
                proof {
                    assert(out_entries@.drop_last() =~= out0);
                    assert(out_entries@.last() == u);
                    assert(entries_map(out_entries@) == entries_map(out0).insert(u.id, u));
                    assert(forall|m: int, l: int|
                        0 <= m < l < out_entries@.len() ==> out_entries@[m].id
                            != out_entries@[l].id);
                    assert(entries_map(out_entries@) =~= Map::new(
                        |id: u128| basemap.dom().contains(id) || (exists|jj: int|
                            0 <= jj < j2 + 1 && (#[trigger] rs_g[jj]).id == id
                                && !pre.dom().contains(id) && group_accepted(
                                pre,
                                rs_g,
                                dels,
                                players@,
                                *cat,
                                rs_g[jj].player,
                                rs_g[jj].action,
                            )),
                        |id: u128| mm[id],
                    ));
                }
            } else {
                proof {
                    assert(entries_map(out_entries@) =~= Map::new(
                        |id: u128| basemap.dom().contains(id) || (exists|jj: int|
                            0 <= jj < j2 + 1 && (#[trigger] rs_g[jj]).id == id
                                && !pre.dom().contains(id) && group_accepted(
                                pre,
                                rs_g,
                                dels,
                                players@,
                                *cat,
                                rs_g[jj].player,
                                rs_g[jj].action,
                            )),
                        |id: u128| mm[id],
                    ));
                }
            }
        } else {
            proof {
                lemma_entries_map_dom(base@);
                assert(basemap.dom().contains(u.id));
                assert(entries_map(out_entries@) =~= Map::new(
                    |id: u128| basemap.dom().contains(id) || (exists|jj: int|
                        0 <= jj < j2 + 1 && (#[trigger] rs_g[jj]).id == id
                            && !pre.dom().contains(id) && group_accepted(
                            pre,
                            rs_g,
                            dels,
                            players@,
                            *cat,
                            rs_g[jj].player,
                            rs_g[jj].action,
                        )),
                    |id: u128| mm[id],
                ));
            }
        }
        j2 = j2 + 1;
    }
    proof {
        assert(entries_map(out_entries@) =~= mm) by {
            assert forall|id: u128| #[trigger]
                mm.dom().contains(id) implies entries_map(out_entries@).dom().contains(id) by {
                lemma_resolved_lookup(rs_g, id);
                match resolved_lookup(rs_g, id) {
                    Some(u) => {
                        if !(pre.dom().contains(id) && !dels.contains(id)) {
                            let j0 = choose|j0: int|
                                0 <= j0 < rs_g.len() && #[trigger] rs_g[j0] == u;
                            if pre.dom().contains(id) {
                                let di = choose|di: int|
                                    0 <= di < dels.len() && dels[di] == id;
                                assert(pre.dom().contains(dels[di]) && rs_g[j0].id == dels[di]);
                            }
                        }
                    },
                    None => {},
                }
            }
            assert forall|id: u128| #[trigger]
                entries_map(out_entries@).dom().contains(id) implies mm.dom().contains(id) by {
                lemma_resolved_lookup(rs_g, id);
                if !basemap.dom().contains(id) {
                    let jj = choose|jj: int|
                        0 <= jj < rs_g.len() && (#[trigger] rs_g[jj]).id == id
                            && !pre.dom().contains(id) && group_accepted(
                            pre,
                            rs_g,
                            dels,
                            players@,
                            *cat,
                            rs_g[jj].player,
                            rs_g[jj].action,
                        );
                    lemma_resolved_lookup_unique(rs_g, jj);
                }
            }
        }
    }

    // broadcast and reconciliation lists
    let ghost acc_p = |u: Entry|
        group_accepted(pre, rs_g, dels, players@, *cat, u.player, u.action);
    let ghost rec_up_p = |u: Entry|
        !group_accepted(pre, rs_g, dels, players@, *cat, u.player, u.action)
            && pre.dom().contains(u.id);
    let ghost rec_del_p = |u: Entry|
        !group_accepted(pre, rs_g, dels, players@, *cat, u.player, u.action)
            && !pre.dom().contains(u.id);
    let mut accepted_upserts: Vec<Entry> = Vec::new();
    let mut reconcile_upserts: Vec<Entry> = Vec::new();
    let mut reconcile_deletes: Vec<u128> = Vec::new();
    proof {
        reveal(Seq::filter);
        assert(rs_g.subrange(0, 0) =~= Seq::<Entry>::empty());
        assert(accepted_upserts@ =~= rs_g.subrange(0, 0).filter(acc_p));
        assert(reconcile_upserts@ =~= rs_g.subrange(0, 0).filter(rec_up_p).map_values(
            |u: Entry| pre[u.id],
        ));
        assert(reconcile_deletes@ =~= rs_g.subrange(0, 0).filter(rec_del_p).map_values(
            |u: Entry| u.id,
        ));
    }
    let mut k3: usize = 0;
    while k3 < nr
        invariant
            nr == resolved@.len(),
            k3 <= nr,
            rs_g == resolved@,
            pre == entries_map(entries@),
            no_dup_entry_ids(entries@),
            nk == keys@.len(),
            decisions@.len() == nk,
            acc_p == (|u: Entry|
                group_accepted(pre, rs_g, dels, players@, *cat, u.player, u.action)),
            rec_up_p == (|u: Entry|
                !group_accepted(pre, rs_g, dels, players@, *cat, u.player, u.action)
                    && pre.dom().contains(u.id)),
            rec_del_p == (|u: Entry|
                !group_accepted(pre, rs_g, dels, players@, *cat, u.player, u.action)
                    && !pre.dom().contains(u.id)),
            forall|j: int|
                0 <= j < rs_g.len() ==> has_key(
                    keys@,
                    (#[trigger] rs_g[j]).player,
                    rs_g[j].action,
                ),
            forall|k: int|
                0 <= k < nk ==> decisions@[k] == group_accepted(
                    pre,
                    rs_g,
                    dels,
                    players@,
                    *cat,
                    (#[trigger] keys@[k]).player,
                    keys@[k].action,
                ),
            accepted_upserts@ == rs_g.subrange(0, k3 as int).filter(acc_p),
            reconcile_upserts@ == rs_g.subrange(0, k3 as int).filter(rec_up_p).map_values(
                |u: Entry| pre[u.id],
            ),
            reconcile_deletes@ == rs_g.subrange(0, k3 as int).filter(rec_del_p).map_values(
                |u: Entry| u.id,
            ),
        decreases nr - k3,
    {
        let u = resolved[k3];
        proof {
            assert(has_key(keys@, u.player, u.action));
        }
        let acc = decision_for(&keys, &decisions, u.player, u.action);
        proof {
            let ki = choose|ki: int|
                0 <= ki < keys@.len() && (#[trigger] keys@[ki]).player == u.player
                    && keys@[ki].action == u.action && decisions@[ki] == acc;
            assert(acc == group_accepted(pre, rs_g, dels, players@, *cat, u.player, u.action));
        }
        if acc {
            accepted_upserts.push(u);
        } else {
            match find_entry(entries, u.id) {
                Some(cur) => {
                    proof {
                        assert(cur == pre[u.id]);
                    }
                    reconcile_upserts.push(cur);
                },
                None => {
                    reconcile_deletes.push(u.id);
                },
            }
        }
        proof {
            reveal(Seq::filter);
            assert(rs_g.subrange(0, k3 + 1).drop_last() =~= rs_g.subrange(0, k3 as int));
            assert(rs_g.subrange(0, k3 + 1).last() == rs_g[k3 as int]);
            assert(u == rs_g[k3 as int]);
            if acc {
                assert(accepted_upserts@ =~= rs_g.subrange(0, k3 + 1).filter(acc_p));
                assert(reconcile_upserts@ =~= rs_g.subrange(0, k3 + 1).filter(
                    rec_up_p,
                ).map_values(|x: Entry| pre[x.id]));
                assert(reconcile_deletes@ =~= rs_g.subrange(0, k3 + 1).filter(
                    rec_del_p,
                ).map_values(|x: Entry| x.id));
            } else {
                assert(accepted_upserts@ =~= rs_g.subrange(0, k3 + 1).filter(acc_p));
                if pre.dom().contains(u.id) {
                    assert(reconcile_upserts@ =~= rs_g.subrange(0, k3 + 1).filter(
                        rec_up_p,
                    ).map_values(|x: Entry| pre[x.id]));
                    assert(reconcile_deletes@ =~= rs_g.subrange(0, k3 + 1).filter(
                        rec_del_p,
                    ).map_values(|x: Entry| x.id));
                } else {
                    assert(reconcile_upserts@ =~= rs_g.subrange(0, k3 + 1).filter(
                        rec_up_p,
                    ).map_values(|x: Entry| pre[x.id]));
                    assert(reconcile_deletes@ =~= rs_g.subrange(0, k3 + 1).filter(
                        rec_del_p,
                    ).map_values(|x: Entry| x.id));
                }
            }
        }
        k3 = k3 + 1;
    }
    proof {
        assert(rs_g.subrange(0, nr as int) =~= rs_g);
        assert(acc_p =~= (|u: Entry|
            group_accepted(pre, rs_g, dels, players@, *cat, u.player, u.action)));
        assert(rec_up_p =~= (|u: Entry|
            !group_accepted(pre, rs_g, dels, players@, *cat, u.player, u.action)
                && pre.dom().contains(u.id)));
        assert(rec_del_p =~= (|u: Entry|
            !group_accepted(pre, rs_g, dels, players@, *cat, u.player, u.action)
                && !pre.dom().contains(u.id)));
        assert((|u: Entry| pre[u.id]) =~= (|u: Entry| pre[u.id]));
    }
    Ok(
        MutationOutcome {
            entries_after: out_entries,
            accepted_upserts,
            accepted_deletes,
            reconcile_upserts,
            reconcile_deletes,
        },
    )
}

/// A group's verdict is exactly the feasibility of its merged contents.
///
/// The merged contents of a group are a function of the authoritative
/// state and the batch alone, so a rejection means no outcome of the
/// proposal could have kept that group within its charge bound.
pub proof fn lemma_group_verdict(
    pre: Map<u128, Entry>,
    rs: Seq<Entry>,
    dels: Seq<u128>,
    players: Seq<Player>,
    cat: ActionCatalog,
    p: u128,
    a: u128,
)
    requires
        group_params(players, cat, p, a) is Some,
    ensures
        group_accepted(pre, rs, dels, players, cat, p, a) <==> group_feasible(
            merged_map(pre, rs, dels),
            p,
            a,
            group_params(players, cat, p, a)->0.cooldown as int,
            group_params(players, cat, p, a)->0.charges as int,
        ),
{
}

/// A batch verdict is always a validation failure, never a permission one.
pub proof fn lemma_batch_error_kind(
    pre: Map<u128, Entry>,
    players: Seq<Player>,
    cat: ActionCatalog,
    raid: RaidInfo,
    ups: Seq<Entry>,
    dels: Seq<u128>,
)
    ensures
        match batch_error(pre, players, cat, raid, ups, dels) {
            Some(e) => e == ServiceError::InvalidArgument || e == ServiceError::FailedPrecondition,
            None => true,
        },
{
    lemma_first_error_kind(pre, players, cat, raid, ups, 0);
}

proof fn lemma_first_error_kind(
    pre: Map<u128, Entry>,
    players: Seq<Player>,
    cat: ActionCatalog,
    raid: RaidInfo,
    ups: Seq<Entry>,
    i: int,
)
    ensures
        match first_upsert_error_from(pre, players, cat, raid, ups, i) {
            Some(e) => e == ServiceError::InvalidArgument || e == ServiceError::FailedPrecondition,
            None => true,
        },
    decreases ups.len() - i,
{
    if 0 <= i < ups.len() {
        lemma_first_error_kind(pre, players, cat, raid, ups, i + 1);
    }
}

/// A clean batch has no failing slot.
pub proof fn lemma_no_first_error(
    pre: Map<u128, Entry>,
    players: Seq<Player>,
    cat: ActionCatalog,
    raid: RaidInfo,
    ups: Seq<Entry>,
    i: int,
)
    requires
        0 <= i <= ups.len(),
        first_upsert_error_from(pre, players, cat, raid, ups, i) is None,
    ensures
        forall|k: int|
            i <= k < ups.len() ==> upsert_slot_error(pre, players, cat, raid, ups, k) is None,
    decreases ups.len() - i,
{
    if i < ups.len() {
        lemma_no_first_error(pre, players, cat, raid, ups, i + 1);
    }
}

/// The set of ids carried by a list of upserts is finite.
pub proof fn lemma_rs_ids_finite(rs: Seq<Entry>)
    ensures
        Set::new(
            |x: u128| exists|j: int| 0 <= j < rs.len() && (#[trigger] rs[j]).id == x,
        ).finite(),
    decreases rs.len(),
{
    broadcast use vstd::set::group_set_axioms;

    let ids = Set::new(|x: u128| exists|j: int| 0 <= j < rs.len() && (#[trigger] rs[j]).id == x);
    if rs.len() == 0 {
        assert(ids =~= Set::<u128>::empty());
    } else {
        let d = rs.drop_last();
        lemma_rs_ids_finite(d);
        let dids = Set::new(
            |x: u128| exists|j: int| 0 <= j < d.len() && (#[trigger] d[j]).id == x,
        );
        assert(ids =~= dids.insert(rs.last().id)) by {
            assert forall|x: u128| #[trigger] ids.contains(x) implies dids.insert(
                rs.last().id,
            ).contains(x) by {
                let j = choose|j: int| 0 <= j < rs.len() && (#[trigger] rs[j]).id == x;
                if j < rs.len() - 1 {
                    assert(d[j].id == x);
                }
            }
            assert forall|x: u128| #[trigger]
                dids.insert(rs.last().id).contains(x) implies ids.contains(x) by {
                if dids.contains(x) {
                    let j = choose|j: int| 0 <= j < d.len() && (#[trigger] d[j]).id == x;
                    assert(rs[j].id == x);
                } else {
                    assert(rs[rs.len() - 1].id == x);
                }
            }
        }
    }
}

/// Applying an accepted batch keeps the entry collection well-formed: every
/// reference stays resolved, every time in range, and every
/// `(player, action)` group within its charge bound.
#[verifier::rlimit(100)]
pub proof fn lemma_mutation_preserves_wf(
    pre: Map<u128, Entry>,
    players: Seq<Player>,
    cat: ActionCatalog,
    raid: RaidInfo,
    ups: Seq<Entry>,
    dels: Seq<u128>,
)
    requires
        pre.dom().finite(),
        entries_wf(pre, players, cat, raid),
        batch_error(pre, players, cat, raid, ups, dels) is None,
    ensures
        entries_wf(
            mutated_map(pre, resolved_upserts(pre, ups), dels, players, cat),
            players,
            cat,
            raid,
        ),
{
    broadcast use vstd::set::group_set_axioms;

    let rs = resolved_upserts(pre, ups);
    let mm = mutated_map(pre, rs, dels, players, cat);
    let merged = merged_map(pre, rs, dels);
    lemma_no_first_error(pre, players, cat, raid, ups, 0);
    assert(forall|j: int|
        0 <= j < rs.len() ==> #[trigger] rs[j] == resolve_upsert(pre, ups[j]));

    // the merged and mutated domains are finite
    lemma_rs_ids_finite(rs);
    let ids = Set::new(|x: u128| exists|j: int| 0 <= j < rs.len() && (#[trigger] rs[j]).id == x);
    assert(merged.dom().subset_of(pre.dom().union(ids))) by {
        assert forall|x: u128| #[trigger] merged.dom().contains(x) implies pre.dom().union(
            ids,
        ).contains(x) by {
            lemma_resolved_lookup(rs, x);
            if resolved_lookup(rs, x) is Some {
                let u = resolved_lookup(rs, x)->0;
                let j = choose|j: int| 0 <= j < rs.len() && #[trigger] rs[j] == u;
                assert(rs[j].id == x);
                assert(ids.contains(x));
            }
        }
    }
    vstd::set_lib::lemma_len_subset(merged.dom(), pre.dom().union(ids));
    assert(merged.dom().finite());

    assert forall|id: u128| #[trigger] mm.dom().contains(id) implies {
        &&& mm[id].id == id
        &&& -MAX_COUNTDOWN <= mm[id].use_at <= raid.duration
        &&& group_params(players, cat, mm[id].player, mm[id].action) is Some
        &&& group_feasible(
            mm,
            mm[id].player,
            mm[id].action,
            group_params(players, cat, mm[id].player, mm[id].action)->0.cooldown as int,
            group_params(players, cat, mm[id].player, mm[id].action)->0.charges as int,
        )
    } by {
        lemma_resolved_lookup(rs, id);
        let e = mm[id];
        // key consistency, range and references
        match resolved_lookup(rs, id) {
            Some(u) => {
                let j = choose|j: int| 0 <= j < rs.len() && #[trigger] rs[j] == u;
                assert(upsert_slot_error(pre, players, cat, raid, ups, j) is None);
                assert(u == resolve_upsert(pre, ups[j]));
                if group_accepted(pre, rs, dels, players, cat, u.player, u.action) {
                    assert(e == u);
                } else {
                    assert(pre.dom().contains(id) && e == pre[id]);
                    assert(u.player == pre[id].player && u.action == pre[id].action);
                }
            },
            None => {
                assert(pre.dom().contains(id) && e == pre[id]);
            },
        }
        let p = e.player;
        let a = e.action;
        let info = group_params(players, cat, p, a)->0;
        let cd = info.cooldown as int;
        let ch = info.charges as int;
        // in all cases the group of the value is the group that was decided
        assert(group_params(players, cat, p, a) is Some);
        assert forall|t: int| crate::entries::group_occupancy(mm, p, a, cd, t) <= ch by {
            if group_accepted(pre, rs, dels, players, cat, p, a) {
                // the group was re-checked against its merged contents
                let cmm = covering_ids(mm, p, a, cd, t);
                let cme = covering_ids(merged, p, a, cd, t);
                assert(cmm.subset_of(cme)) by {
                    assert forall|x: u128| #[trigger] cmm.contains(x) implies cme.contains(
                        x,
                    ) by {
                        lemma_resolved_lookup(rs, x);
                        match resolved_lookup(rs, x) {
                            Some(v) => {
                                let jv = choose|jv: int|
                                    0 <= jv < rs.len() && #[trigger] rs[jv] == v;
                                assert(v == resolve_upsert(pre, ups[jv]));
                                if group_accepted(pre, rs, dels, players, cat, v.player, v.action) {
                                    assert(mm[x] == v && merged[x] == v);
                                } else {
                                    assert(pre.dom().contains(x) && mm[x] == pre[x]);
                                    assert(v.player == pre[x].player && v.action
                                        == pre[x].action);
                                    assert(in_group(mm[x], p, a));
                                    assert(v.player == p && v.action == a);
                                    assert(false);
                                }
                            },
                            None => {
                                assert(mm[x] == pre[x] && merged[x] == pre[x]);
                            },
                        }
                    }
                }
                merged.dom().lemma_len_filter(
                    |x: u128| in_group(merged[x], p, a) && covers(merged[x].use_at as int, cd, t),
                );
                vstd::set_lib::lemma_len_subset(cmm, cme);
                assert(crate::entries::group_occupancy(merged, p, a, cd, t) <= ch);
            } else {
                // an untouched or rejected group only loses entries
                assert(pre.dom().contains(id) && e == pre[id]);
                let cmm = covering_ids(mm, p, a, cd, t);
                let cpr = covering_ids(pre, p, a, cd, t);
                assert(cmm.subset_of(cpr)) by {
                    assert forall|x: u128| #[trigger] cmm.contains(x) implies cpr.contains(
                        x,
                    ) by {
                        lemma_resolved_lookup(rs, x);
                        match resolved_lookup(rs, x) {
                            Some(v) => {
                                let jv = choose|jv: int|
                                    0 <= jv < rs.len() && #[trigger] rs[jv] == v;
                                assert(v == resolve_upsert(pre, ups[jv]));
                                if group_accepted(pre, rs, dels, players, cat, v.player, v.action) {
                                    assert(mm[x] == v);
                                    assert(v.player == p && v.action == a);
                                    assert(false);
                                } else {
                                    assert(pre.dom().contains(x) && mm[x] == pre[x]);
                                }
                            },
                            None => {
                                assert(pre.dom().contains(x) && mm[x] == pre[x]);
                            },
                        }
                    }
                }
                pre.dom().lemma_len_filter(
                    |x: u128| in_group(pre[x], p, a) && covers(pre[x].use_at as int, cd, t),
                );
                vstd::set_lib::lemma_len_subset(cmm, cpr);
                assert(crate::entries::group_occupancy(pre, p, a, cd, t) <= ch);
            }
        }
    }
}

} // verus!
