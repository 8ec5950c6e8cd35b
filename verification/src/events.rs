//! Events on the subscription stream, and their replay on a client replica.
//!
//! A subscriber first receives the initialization snapshot, then one event
//! per committed mutation of its strategy.  Replaying those events on the
//! snapshot keeps the client's replica convergent with the server's state;
//! the replay lemmas below state that per event.

use vstd::prelude::*;
use vstd::pervasive::VecAdditionalExecFns;
use crate::entries::{map_minus_ids, remove_ids, remove_player_entries};
use crate::mutation::{
    delete_conflict, group_accepted, lemma_accepted_deletes, lemma_resolved_lookup,
    lemma_resolved_lookup_unique, mutated_map, resolved_lookup,
};
use crate::session::upsert_entry_vec;
use crate::types::{
    DamageOption, Entry, Job, Player, damage_options_map, entries_map, no_dup_damage_ids,
    no_dup_entry_ids, no_dup_player_ids, players_map, lemma_damage_options_map_dom,
    lemma_players_map_update,
};

verus! {

/// One message on a peer's stream after the initialization snapshot.
#[derive(Clone, Debug, PartialEq, Eq)]
pub enum Event {
    UpsertDamageOption { damage_option: DamageOption },
    UpsertEntry { entry: Entry },
    DeleteEntry { id: u128 },
    MutateEntries { upserts: Vec<Entry>, deletes: Vec<u128> },
    UpdatePlayerJob { id: u128, job: Option<Job> },
}

/// A client's copy of the strategy document.
#[derive(Clone, Debug, PartialEq, Eq)]
pub struct Replica {
    pub players: Vec<Player>,
    pub damage_options: Vec<DamageOption>,
    pub entries: Vec<Entry>,
}

pub open spec fn replica_wf(r: Replica) -> bool {
    &&& no_dup_player_ids(r.players@)
    &&& no_dup_damage_ids(r.damage_options@)
    &&& no_dup_entry_ids(r.entries@)
}

/// The entry map after a list of upserts, each replacing by id.
pub open spec fn upserts_applied(m: Map<u128, Entry>, ups: Seq<Entry>) -> Map<u128, Entry>
    decreases ups.len(),
{
    if ups.len() == 0 {
        m
    } else {
        upserts_applied(m, ups.drop_last()).insert(ups.last().id, ups.last())
    }
}

/// What a sequence of replacing upserts leaves at each key.
pub proof fn lemma_upserts_applied(m: Map<u128, Entry>, ups: Seq<Entry>)
    ensures
        forall|id: u128|
            #[trigger] upserts_applied(m, ups).dom().contains(id) <==> (m.dom().contains(id)
                || resolved_lookup(ups, id) is Some),
        forall|id: u128|
            upserts_applied(m, ups).dom().contains(id) ==> #[trigger] upserts_applied(m, ups)[id]
                == (match resolved_lookup(ups, id) {
                Some(u) => u,
                None => m[id],
            }),
    decreases ups.len(),
{
    if ups.len() > 0 {
        let d = ups.drop_last();
        lemma_upserts_applied(m, d);
        assert(upserts_applied(m, ups) == upserts_applied(m, d).insert(
            ups.last().id,
            ups.last(),
        ));
        assert forall|id: u128|
            #[trigger] upserts_applied(m, ups).dom().contains(id) <==> (m.dom().contains(id)
                || resolved_lookup(ups, id) is Some) by {
            if id == ups.last().id {
                assert(resolved_lookup(ups, id) == Some(ups.last()));
                assert(upserts_applied(m, ups).dom().contains(id));
            } else {
                assert(resolved_lookup(ups, id) == resolved_lookup(d, id));
                assert(upserts_applied(m, ups).dom().contains(id) == upserts_applied(
                    m,
                    d,
                ).dom().contains(id));
            }
        }
        assert forall|id: u128|
            upserts_applied(m, ups).dom().contains(id) implies #[trigger] upserts_applied(
            m,
            ups,
        )[id] == (match resolved_lookup(ups, id) {
            Some(u) => u,
            None => m[id],
        }) by {
            if id == ups.last().id {
                assert(upserts_applied(m, ups)[id] == ups.last());
            } else {
                assert(resolved_lookup(ups, id) == resolved_lookup(d, id));
                assert(upserts_applied(m, ups)[id] == upserts_applied(m, d)[id]);
            }
        }
    }
}

/// Replace the damage option for one damage on the replica's list.
fn upsert_dopt_vec(v: &Vec<DamageOption>, dopt: DamageOption) -> (out: Vec<DamageOption>)
    requires
        no_dup_damage_ids(v@),
    ensures
        no_dup_damage_ids(out@),
        damage_options_map(out@) == damage_options_map(v@).insert(dopt.damage, dopt),
{
    let n = v.len();
    let ghost dm0 = damage_options_map(v@);
    let mut out: Vec<DamageOption> = Vec::new();
    proof {
        lemma_damage_options_map_dom(v@);
        assert(damage_options_map(out@) =~= Map::new(
            |k: u128| (exists|x: int| 0 <= x < 0 && (#[trigger] v@[x]).damage == k) && k
                != dopt.damage,
            |k: u128| dm0[k],
        ));
    }
    let mut i: usize = 0;
    while i < n
        invariant
            n == v@.len(),
            i <= n,
            no_dup_damage_ids(v@),
            dm0 == damage_options_map(v@),
            no_dup_damage_ids(out@),
            forall|k: int| 0 <= k < out@.len() ==> (#[trigger] out@[k]).damage != dopt.damage,
            damage_options_map(out@) == Map::new(
                |k: u128| (exists|x: int|
                    0 <= x < i && (#[trigger] v@[x]).damage == k) && k != dopt.damage,
                |k: u128| dm0[k],
            ),
        decreases n - i,
    {
        let d = v[i];
        proof {
            crate::types::lemma_damage_options_map_index(v@, i as int);
            assert(dm0[d.damage] == d);
        }
        if d.damage != dopt.damage {
            proof {
                assert forall|k: int| 0 <= k < out@.len() implies (#[trigger] out@[k]).damage
                    != d.damage by {
                    crate::types::lemma_damage_options_map_index(out@, k);
                    assert(damage_options_map(out@).dom().contains(out@[k].damage));
                    if out@[k].damage == d.damage {
                        let x = choose|x: int|
                            0 <= x < i && (#[trigger] v@[x]).damage == d.damage;
                        assert(v@[x].damage == v@[i as int].damage);
                    }
                }
            }
            let ghost out0 = out@;
            out.push(d);
            proof {
                assert(out@.drop_last() =~= out0);
                assert(out@.last() == d);
                assert(forall|k: int, l: int|
                    0 <= k < l < out@.len() ==> out@[k].damage != out@[l].damage);
                assert(damage_options_map(out@) =~= Map::new(
                    |k: u128| (exists|x: int|
                        0 <= x < i + 1 && (#[trigger] v@[x]).damage == k) && k != dopt.damage,
                    |k: u128| dm0[k],
                ));
            }
        } else {
            proof {
                assert(damage_options_map(out@) =~= Map::new(
                    |k: u128| (exists|x: int|
                        0 <= x < i + 1 && (#[trigger] v@[x]).damage == k) && k != dopt.damage,
                    |k: u128| dm0[k],
                ));
            }
        }
        i = i + 1;
    }
    proof {
        lemma_damage_options_map_dom(v@);
    }
    let ghost outpre = out@;
    out.push(dopt);
    proof {
        assert(out@.drop_last() =~= outpre);
        assert(out@.last() == dopt);
        assert(forall|k: int, l: int|
            0 <= k < l < out@.len() ==> out@[k].damage != out@[l].damage);
        assert(damage_options_map(out@) =~= dm0.insert(dopt.damage, dopt));
    }
    out
}

/// Apply one streamed event to the replica, as a subscribed client does.
pub fn apply_event(rep: &mut Replica, ev: &Event)
    requires
        replica_wf(*old(rep)),
    ensures
        replica_wf(*final(rep)),
        match *ev {
            Event::UpsertDamageOption { damage_option } => {
                &&& damage_options_map(final(rep).damage_options@) == damage_options_map(
                    old(rep).damage_options@,
                ).insert(damage_option.damage, damage_option)
                &&& final(rep).players@ == old(rep).players@
                &&& final(rep).entries@ == old(rep).entries@
            },
            Event::UpsertEntry { entry } => {
                &&& entries_map(final(rep).entries@) == entries_map(old(rep).entries@).insert(
                    entry.id,
                    entry,
                )
                &&& final(rep).players@ == old(rep).players@
                &&& final(rep).damage_options@ == old(rep).damage_options@
            },
            Event::DeleteEntry { id } => {
                &&& entries_map(final(rep).entries@) == entries_map(old(rep).entries@).remove(id)
                &&& final(rep).players@ == old(rep).players@
                &&& final(rep).damage_options@ == old(rep).damage_options@
            },
            Event::MutateEntries { ref upserts, ref deletes } => {
                &&& entries_map(final(rep).entries@) == upserts_applied(
                    map_minus_ids(entries_map(old(rep).entries@), deletes@),
                    upserts@,
                )
                &&& final(rep).players@ == old(rep).players@
                &&& final(rep).damage_options@ == old(rep).damage_options@
            },
            Event::UpdatePlayerJob { id, job } => {
                &&& (players_map(old(rep).players@).dom().contains(id) ==> players_map(
                    final(rep).players@,
                ) == players_map(old(rep).players@).insert(
                    id,
                    Player { id, job, order: players_map(old(rep).players@)[id].order },
                ))
                &&& (!players_map(old(rep).players@).dom().contains(id) ==> final(rep).players@
                    == old(rep).players@)
                &&& entries_map(final(rep).entries@) == crate::entries::map_minus_player(
                    entries_map(old(rep).entries@),
                    id,
                )
                &&& final(rep).damage_options@ == old(rep).damage_options@
            },
        },
{
    match ev {
        Event::UpsertDamageOption { damage_option } => {
            let out = upsert_dopt_vec(&rep.damage_options, *damage_option);
            rep.damage_options = out;
        },
        Event::UpsertEntry { entry } => {
            let out = upsert_entry_vec(&rep.entries, *entry);
            rep.entries = out;
        },
        Event::DeleteEntry { id } => {
            let mut dels: Vec<u128> = Vec::new();
            dels.push(*id);
            let out = remove_ids(&rep.entries, &dels);
            proof {
                assert(dels@.len() == 1 && dels@[0] == *id);
                assert forall|k: u128| #[trigger] dels@.contains(k) <==> k == *id by {
                    if dels@.contains(k) {
                        let x = choose|x: int| 0 <= x < dels@.len() && dels@[x] == k;
                    }
                    if k == *id {
                        assert(dels@[0] == k);
                    }
                }
                assert(entries_map(out@) =~= entries_map(rep.entries@).remove(*id));
            }
            rep.entries = out;
        },
        Event::MutateEntries { upserts, deletes } => {
            let base = remove_ids(&rep.entries, deletes);
            let ghost basemap = entries_map(base@);
            let n = upserts.len();
            let mut cur = base;
            proof {
                assert(upserts@.subrange(0, 0) =~= Seq::<Entry>::empty());
                assert(entries_map(cur@) =~= upserts_applied(
                    basemap,
                    upserts@.subrange(0, 0),
                ));
            }
            let mut i: usize = 0;
            while i < n
                invariant
                    n == upserts@.len(),
                    i <= n,
                    no_dup_entry_ids(cur@),
                    entries_map(cur@) == upserts_applied(basemap, upserts@.subrange(0, i as int)),
                decreases n - i,
            {
                let u = upserts[i];
                let next = upsert_entry_vec(&cur, u);
                proof {
                    assert(upserts@.subrange(0, i + 1).drop_last() =~= upserts@.subrange(
                        0,
                        i as int,
                    ));
                    assert(upserts@.subrange(0, i + 1).last() == upserts@[i as int]);
                }
                cur = next;
                i = i + 1;
            }
            proof {
                assert(upserts@.subrange(0, n as int) =~= upserts@);
            }
            rep.entries = cur;
        },
        Event::UpdatePlayerJob { id, job } => {
            let n = rep.players.len();
            let mut idx: usize = 0;
            let mut found = false;
            while idx < n && !found
                invariant
                    n == rep.players@.len(),
                    idx <= n,
                    !found ==> forall|k: int|
                        0 <= k < idx ==> (#[trigger] rep.players@[k]).id != *id,
                    found ==> idx < n && rep.players@[idx as int].id == *id,
                decreases n - idx + if found {
                    0int
                } else {
                    1int
                },
            {
                if rep.players[idx].id == *id {
                    found = true;
                } else {
                    idx = idx + 1;
                }
            }
            if found {
                let order = rep.players[idx].order;
                let updated = Player { id: *id, job: *job, order };
                proof {
                    crate::types::lemma_players_map_index(rep.players@, idx as int);
                    lemma_players_map_update(rep.players@, idx as int, updated);
                }
                rep.players.set(idx, updated);
            } else {
                proof {
                    crate::types::lemma_players_map_dom(rep.players@);
                }
            }
            let out = remove_player_entries(&rep.entries, *id);
            rep.entries = out;
        },
    }
}

/// Replay convergence for the batched mutation: applying the broadcast
/// deletes and accepted upserts to any replica holding the previous state
/// yields exactly the server's mutated state.
pub proof fn lemma_replay_mutation(
    pre: Map<u128, Entry>,
    rs: Seq<Entry>,
    dels: Seq<u128>,
    players: Seq<Player>,
    cat: crate::catalog::ActionCatalog,
)
    requires
        no_dup_entry_ids(rs),
        !delete_conflict(pre, rs, dels),
    ensures
        upserts_applied(
            map_minus_ids(pre, dels.filter(|id: u128| pre.dom().contains(id))),
            rs.filter(
                |u: Entry| group_accepted(pre, rs, dels, players, cat, u.player, u.action),
            ),
        ) == mutated_map(pre, rs, dels, players, cat),
{
    let accp = |u: Entry| group_accepted(pre, rs, dels, players, cat, u.player, u.action);
    let acc = rs.filter(accp);
    let base = map_minus_ids(pre, dels.filter(|id: u128| pre.dom().contains(id)));
    lemma_accepted_deletes(pre, dels);
    assert(base == map_minus_ids(pre, dels));
    lemma_upserts_applied(base, acc);
    let lhs = upserts_applied(base, acc);
    let rhs = mutated_map(pre, rs, dels, players, cat);
    assert forall|id: u128| #[trigger] lhs.dom().contains(id) <==> rhs.dom().contains(id) by {
        lemma_filtered_lookup(pre, rs, dels, players, cat, id);
        lemma_resolved_lookup(rs, id);
    }
    assert forall|id: u128|
        lhs.dom().contains(id) implies #[trigger] lhs[id] == rhs[id] by {
        lemma_filtered_lookup(pre, rs, dels, players, cat, id);
        lemma_resolved_lookup(rs, id);
    }
    assert(lhs =~= rhs);
}

/// Looking an id up among the accepted upserts finds the upsert exactly
/// when its group was accepted.
proof fn lemma_filtered_lookup(
    pre: Map<u128, Entry>,
    rs: Seq<Entry>,
    dels: Seq<u128>,
    players: Seq<Player>,
    cat: crate::catalog::ActionCatalog,
    id: u128,
)
    requires
        no_dup_entry_ids(rs),
    ensures
        resolved_lookup(
            rs.filter(
                |u: Entry| group_accepted(pre, rs, dels, players, cat, u.player, u.action),
            ),
            id,
        ) == (match resolved_lookup(rs, id) {
            Some(u) => if group_accepted(pre, rs, dels, players, cat, u.player, u.action) {
                Some(u)
            } else {
                None
            },
            None => None::<Entry>,
        }),
{
    let accp = |u: Entry| group_accepted(pre, rs, dels, players, cat, u.player, u.action);
    let acc = rs.filter(accp);
    rs.filter_lemma(accp);
    lemma_resolved_lookup(rs, id);
    lemma_resolved_lookup(acc, id);
    match resolved_lookup(rs, id) {
        Some(u) => {
            let j = choose|j: int| 0 <= j < rs.len() && #[trigger] rs[j] == u;
            if accp(u) {
                assert(acc.contains(u));
                let k = choose|k: int| 0 <= k < acc.len() && acc[k] == u;
                match resolved_lookup(acc, id) {
                    Some(w) => {
                        let kw = choose|kw: int| 0 <= kw < acc.len() && #[trigger] acc[kw] == w;
                        rs.lemma_filter_contains_rev(accp, acc[kw]);
                        assert(rs.contains(acc[kw]));
                        let jw = choose|jw: int|
                            0 <= jw < rs.len() && #[trigger] rs[jw] == acc[kw];
                        assert(rs[jw].id == id);
                        lemma_resolved_lookup_unique(rs, jw);
                        assert(w == u);
                    },
                    None => {
                        assert(acc[k].id != id);
                    },
                }
            } else {
                match resolved_lookup(acc, id) {
                    Some(w) => {
                        let kw = choose|kw: int| 0 <= kw < acc.len() && #[trigger] acc[kw] == w;
                        rs.lemma_filter_contains_rev(accp, acc[kw]);
                        assert(rs.contains(acc[kw]));
                        let jw = choose|jw: int|
                            0 <= jw < rs.len() && #[trigger] rs[jw] == acc[kw];
                        lemma_resolved_lookup_unique(rs, jw);
                        assert(w == u);
                        assert(accp(acc[kw]));
                        assert(false);
                    },
                    None => {},
                }
            }
        },
        None => {
            match resolved_lookup(acc, id) {
                Some(w) => {
                    let kw = choose|kw: int| 0 <= kw < acc.len() && #[trigger] acc[kw] == w;
                    rs.lemma_filter_contains_rev(accp, acc[kw]);
                    assert(rs.contains(acc[kw]));
                    let jw = choose|jw: int| 0 <= jw < rs.len() && #[trigger] rs[jw] == acc[kw];
                    assert(rs[jw].id == id);
                },
                None => {},
            }
        },
    }
}

} // verus!
