//! The timeline entry collection and its per-group occupancy bound.
//!
//! Entries are keyed by id; every entry belongs to one `(player, action)`
//! group.  The charge bound of an action is a property of the group's set of
//! start times, so the map-level occupancy here is connected to the
//! sequence-level occupancy of `crate::feasibility`.

use vstd::prelude::*;
use vstd::set_lib::lemma_len_subset;
use crate::feasibility::{covers, occupancy};
use crate::types::{
    Entry, entries_map, no_dup_entry_ids, lemma_entries_map_dom, lemma_entries_map_index,
};

verus! {

/// Start times of a list of entries, in list order.
pub open spec fn use_ats(s: Seq<Entry>) -> Seq<i32> {
    s.map_values(|e: Entry| e.use_at)
}

pub open spec fn in_group(e: Entry, p: u128, a: u128) -> bool {
    e.player == p && e.action == a
}

/// Ids of the entries of group `(p, a)` whose window covers `t`.
pub open spec fn covering_ids(m: Map<u128, Entry>, p: u128, a: u128, cd: int, t: int) -> Set<
    u128,
> {
    m.dom().filter(
        |id: u128| in_group(m[id], p, a) && covers(m[id].use_at as int, cd, t),
    )
}

/// How many uses of group `(p, a)` are live at instant `t`.
pub open spec fn group_occupancy(m: Map<u128, Entry>, p: u128, a: u128, cd: int, t: int) -> int {
    covering_ids(m, p, a, cd, t).len() as int
}

/// The group respects the charge bound at every instant.
pub open spec fn group_feasible(m: Map<u128, Entry>, p: u128, a: u128, cd: int, ch: int) -> bool {
    forall|t: int| group_occupancy(m, p, a, cd, t) <= ch
}

/// The entry map after dropping the listed ids.
pub open spec fn map_minus_ids(m: Map<u128, Entry>, dels: Seq<u128>) -> Map<u128, Entry> {
    Map::new(|id: u128| m.dom().contains(id) && !dels.contains(id), |id: u128| m[id])
}

/// The entry map after dropping every entry of one player.
pub open spec fn map_minus_player(m: Map<u128, Entry>, p: u128) -> Map<u128, Entry> {
    Map::new(|id: u128| m.dom().contains(id) && m[id].player != p, |id: u128| m[id])
}

/// For a duplicate-free list lying in one group, the sequence occupancy of
/// its start times is the group occupancy of its map view.
pub proof fn lemma_vec_group_occupancy(v: Seq<Entry>, p: u128, a: u128, cd: int, t: int)
    requires
        no_dup_entry_ids(v),
        forall|i: int| 0 <= i < v.len() ==> in_group(#[trigger] v[i], p, a),
    ensures
        covering_ids(entries_map(v), p, a, cd, t).finite(),
        occupancy(use_ats(v), cd, t) == group_occupancy(entries_map(v), p, a, cd, t),
    decreases v.len(),
{
    broadcast use vstd::set::group_set_axioms;

    if v.len() == 0 {
        assert(covering_ids(entries_map(v), p, a, cd, t) =~= Set::<u128>::empty());
    } else {
        let d = v.drop_last();
        let e = v.last();
        assert(forall|i: int| 0 <= i < d.len() ==> in_group(#[trigger] d[i], p, a)) by {
            assert(forall|i: int| 0 <= i < d.len() ==> d[i] == v[i]);
        }
        lemma_vec_group_occupancy(d, p, a, cd, t);
        lemma_entries_map_dom(d);
        assert(!entries_map(d).dom().contains(e.id)) by {
            if entries_map(d).dom().contains(e.id) {
                let i = choose|i: int| 0 <= i < d.len() && (#[trigger] d[i]).id == e.id;
                assert(v[i].id == v[v.len() - 1].id);
            }
        }
        assert(use_ats(v).drop_last() =~= use_ats(d));
        assert(use_ats(v).last() == e.use_at);
        let md = entries_map(d);
        let mv = entries_map(v);
        assert(mv == md.insert(e.id, e));
        if covers(e.use_at as int, cd, t) {
            assert(covering_ids(mv, p, a, cd, t) =~= covering_ids(md, p, a, cd, t).insert(e.id));
        } else {
            assert(covering_ids(mv, p, a, cd, t) =~= covering_ids(md, p, a, cd, t));
        }
    }
}

/// Occupancy can only shrink when entries are removed.
pub proof fn lemma_submap_group_occupancy(
    m1: Map<u128, Entry>,
    m2: Map<u128, Entry>,
    p: u128,
    a: u128,
    cd: int,
    t: int,
)
    requires
        m1.submap_of(m2),
        covering_ids(m2, p, a, cd, t).finite(),
    ensures
        covering_ids(m1, p, a, cd, t).finite(),
        group_occupancy(m1, p, a, cd, t) <= group_occupancy(m2, p, a, cd, t),
{
    broadcast use vstd::set::group_set_axioms;

    let c1 = covering_ids(m1, p, a, cd, t);
    let c2 = covering_ids(m2, p, a, cd, t);
    assert(c1.subset_of(c2));
    lemma_len_subset(c1, c2);
}

/// Whether `id` occurs in the list.
pub fn id_in_list(ids: &Vec<u128>, id: u128) -> (b: bool)
    ensures
        b == ids@.contains(id),
{
    let n = ids.len();
    let mut i: usize = 0;
    while i < n
        invariant
            n == ids@.len(),
            i <= n,
            forall|k: int| 0 <= k < i ==> ids@[k] != id,
        decreases n - i,
    {
        if ids[i] == id {
            assert(ids@[i as int] == id);
            return true;
        }
        i = i + 1;
    }
    false
}

/// Look an entry up by id.
pub fn find_entry(v: &Vec<Entry>, id: u128) -> (r: Option<Entry>)
    requires
        no_dup_entry_ids(v@),
    ensures
        match r {
            Some(e) => entries_map(v@).dom().contains(id) && entries_map(v@)[id] == e && e.id
                == id,
            None => !entries_map(v@).dom().contains(id),
        },
{
    proof {
        lemma_entries_map_dom(v@);
    }
    let n = v.len();
    let mut i: usize = 0;
    while i < n
        invariant
            n == v@.len(),
            i <= n,
            no_dup_entry_ids(v@),
            forall|k: int| 0 <= k < i ==> (#[trigger] v@[k]).id != id,
        decreases n - i,
    {
        if v[i].id == id {
            proof {
                lemma_entries_map_index(v@, i as int);
            }
            return Some(v[i]);
        }
        i = i + 1;
    }
    proof {
        lemma_entries_map_dom(v@);
    }
    None
}

/// Drop every entry whose id is listed in `dels`.
pub fn remove_ids(v: &Vec<Entry>, dels: &Vec<u128>) -> (out: Vec<Entry>)
    requires
        no_dup_entry_ids(v@),
    ensures
        no_dup_entry_ids(out@),
        entries_map(out@) == map_minus_ids(entries_map(v@), dels@),
{
    let n = v.len();
    let mut out: Vec<Entry> = Vec::new();
    proof {
        assert(v@.subrange(0, 0) =~= Seq::<Entry>::empty());
        assert(entries_map(out@) =~= map_minus_ids(entries_map(v@.subrange(0, 0)), dels@));
    }
    let mut i: usize = 0;
    while i < n
        invariant
            n == v@.len(),
            i <= n,
            no_dup_entry_ids(v@),
            no_dup_entry_ids(out@),
            entries_map(out@) == map_minus_ids(entries_map(v@.subrange(0, i as int)), dels@),
        decreases n - i,
    {
        let e = v[i];
        let ghost pre = v@.subrange(0, i as int);
        proof {
            assert(v@.subrange(0, i + 1).drop_last() =~= pre);
            assert(v@.subrange(0, i + 1).last() == v@[i as int]);
            assert(no_dup_entry_ids(pre)) by {
                assert(forall|k: int| 0 <= k < pre.len() ==> pre[k] == v@[k]);
            }
            lemma_entries_map_dom(pre);
            assert(!entries_map(pre).dom().contains(e.id)) by {
                if entries_map(pre).dom().contains(e.id) {
                    let k = choose|k: int| 0 <= k < pre.len() && (#[trigger] pre[k]).id == e.id;
                    assert(v@[k].id == v@[i as int].id);
                }
            }
            lemma_entries_map_dom(out@);
        }
        if !id_in_list(dels, e.id) {
            proof {
                // the pushed id is fresh in `out`
                assert(forall|k: int| 0 <= k < out@.len() ==> (#[trigger] out@[k]).id != e.id) by {
                    assert forall|k: int| 0 <= k < out@.len() implies (#[trigger] out@[k]).id
                        != e.id by {
                        assert(entries_map(out@).dom().contains(out@[k].id));
                    }
                }
            }
            let ghost out0 = out@;
            out.push(e);
            proof {
                assert(out@.drop_last() =~= out0);
                assert(out@.last() == e);
                assert(entries_map(out@) == entries_map(out0).insert(e.id, e));
                assert(forall|k: int, l: int|
                    0 <= k < l < out@.len() ==> out@[k].id != out@[l].id);
                assert(entries_map(out@) =~= map_minus_ids(
                    entries_map(v@.subrange(0, i + 1)),
                    dels@,
                ));
            }
        } else {
            proof {
                assert(entries_map(out@) =~= map_minus_ids(
                    entries_map(v@.subrange(0, i + 1)),
                    dels@,
                ));
            }
        }
        i = i + 1;
    }
    proof {
        assert(v@.subrange(0, n as int) =~= v@);
    }
    out
}

/// Drop every entry of player `p`.
pub fn remove_player_entries(v: &Vec<Entry>, p: u128) -> (out: Vec<Entry>)
    requires
        no_dup_entry_ids(v@),
    ensures
        no_dup_entry_ids(out@),
        entries_map(out@) == map_minus_player(entries_map(v@), p),
        forall|k: int| 0 <= k < out@.len() ==> (#[trigger] out@[k]).player != p,
{
    let n = v.len();
    let mut out: Vec<Entry> = Vec::new();
    proof {
        assert(v@.subrange(0, 0) =~= Seq::<Entry>::empty());
        assert(entries_map(out@) =~= map_minus_player(entries_map(v@.subrange(0, 0)), p));
    }
    let mut i: usize = 0;
    while i < n
        invariant
            n == v@.len(),
            i <= n,
            no_dup_entry_ids(v@),
            no_dup_entry_ids(out@),
            entries_map(out@) == map_minus_player(entries_map(v@.subrange(0, i as int)), p),
            forall|k: int| 0 <= k < out@.len() ==> (#[trigger] out@[k]).player != p,
        decreases n - i,
    {
        let e = v[i];
        let ghost pre = v@.subrange(0, i as int);
        proof {
            assert(v@.subrange(0, i + 1).drop_last() =~= pre);
            assert(v@.subrange(0, i + 1).last() == v@[i as int]);
            assert(no_dup_entry_ids(pre)) by {
                assert(forall|k: int| 0 <= k < pre.len() ==> pre[k] == v@[k]);
            }
            lemma_entries_map_dom(pre);
            assert(!entries_map(pre).dom().contains(e.id)) by {
                if entries_map(pre).dom().contains(e.id) {
                    let k = choose|k: int| 0 <= k < pre.len() && (#[trigger] pre[k]).id == e.id;
                    assert(v@[k].id == v@[i as int].id);
                }
            }
            lemma_entries_map_dom(out@);
        }
        if e.player != p {
            proof {
                assert(forall|k: int| 0 <= k < out@.len() ==> (#[trigger] out@[k]).id != e.id) by {
                    assert forall|k: int| 0 <= k < out@.len() implies (#[trigger] out@[k]).id
                        != e.id by {
                        assert(entries_map(out@).dom().contains(out@[k].id));
                    }
                }
            }
            let ghost out0 = out@;
            out.push(e);
            proof {
                assert(out@.drop_last() =~= out0);
                assert(out@.last() == e);
                assert(entries_map(out@) == entries_map(out0).insert(e.id, e));
                assert(forall|k: int, l: int|
                    0 <= k < l < out@.len() ==> out@[k].id != out@[l].id);
                assert(entries_map(out@) =~= map_minus_player(
                    entries_map(v@.subrange(0, i + 1)),
                    p,
                ));
            }
        } else {
            proof {
                assert(entries_map(out@) =~= map_minus_player(
                    entries_map(v@.subrange(0, i + 1)),
                    p,
                ));
            }
        }
        i = i + 1;
    }
    proof {
        assert(v@.subrange(0, n as int) =~= v@);
    }
    out
}

/// Whether the `(p, a)` group of the list respects the given charge bound.
pub fn group_fits(v: &Vec<Entry>, p: u128, a: u128, cooldown: i32, charges: i32) -> (ok: bool)
    requires
        no_dup_entry_ids(v@),
    ensures
        ok == group_feasible(entries_map(v@), p, a, cooldown as int, charges as int),
{
    let ghost m = entries_map(v@);
    let n = v.len();
    let mut gvec: Vec<Entry> = Vec::new();
    proof {
        assert(entries_map(gvec@) =~= Map::new(
            |id: u128| (exists|k: int| 0 <= k < 0 && (#[trigger] v@[k]).id == id) && in_group(
                m[id],
                p,
                a,
            ),
            |id: u128| m[id],
        ));
    }
    let mut i: usize = 0;
    while i < n
        invariant
            n == v@.len(),
            i <= n,
            no_dup_entry_ids(v@),
            m == entries_map(v@),
            no_dup_entry_ids(gvec@),
            forall|k: int| 0 <= k < gvec@.len() ==> in_group(#[trigger] gvec@[k], p, a),
            entries_map(gvec@) == Map::new(
                |id: u128| (exists|k: int|
                    0 <= k < i && (#[trigger] v@[k]).id == id) && in_group(m[id], p, a),
                |id: u128| m[id],
            ),
        decreases n - i,
    {
        let e = v[i];
        proof {
            lemma_entries_map_index(v@, i as int);
            assert(m[e.id] == e && v@[i as int].id == e.id);
        }
        if e.player == p && e.action == a {
            proof {
                assert forall|k: int| 0 <= k < gvec@.len() implies (#[trigger] gvec@[k]).id
                    != e.id by {
                    lemma_entries_map_index(gvec@, k);
                    assert(entries_map(gvec@).dom().contains(gvec@[k].id));
                    if gvec@[k].id == e.id {
                        let x = choose|x: int| 0 <= x < i && (#[trigger] v@[x]).id == e.id;
                        assert(v@[x].id == v@[i as int].id);
                    }
                }
            }
            let ghost g0 = gvec@;
            gvec.push(e);
            proof {
                assert(gvec@.drop_last() =~= g0);
                assert(gvec@.last() == e);
                assert(forall|k: int, l: int|
                    0 <= k < l < gvec@.len() ==> gvec@[k].id != gvec@[l].id);
                assert(entries_map(gvec@) =~= Map::new(
                    |id: u128| (exists|k: int|
                        0 <= k < i + 1 && (#[trigger] v@[k]).id == id) && in_group(m[id], p, a),
                    |id: u128| m[id],
                ));
            }
        } else {
            proof {
                assert(entries_map(gvec@) =~= Map::new(
                    |id: u128| (exists|k: int|
                        0 <= k < i + 1 && (#[trigger] v@[k]).id == id) && in_group(m[id], p, a),
                    |id: u128| m[id],
                ));
            }
        }
        i = i + 1;
    }
    proof {
        lemma_entries_map_dom(v@);
        assert(entries_map(gvec@) =~= Map::new(
            |id: u128| m.dom().contains(id) && in_group(m[id], p, a),
            |id: u128| m[id],
        ));
    }
    let ng = gvec.len();
    let mut ua: Vec<i32> = Vec::new();
    let mut k: usize = 0;
    while k < ng
        invariant
            ng == gvec@.len(),
            k <= ng,
            ua@.len() == k,
            forall|x: int| 0 <= x < k ==> ua@[x] == (#[trigger] gvec@[x]).use_at,
        decreases ng - k,
    {
        let t = gvec[k].use_at;
        ua.push(t);
        k = k + 1;
    }
    proof {
        assert(ua@ =~= use_ats(gvec@));
    }
    let ok = crate::feasibility::fits_charges(&ua, cooldown, charges);
    proof {
        let cd = cooldown as int;
        let ch = charges as int;
        let gm = entries_map(gvec@);
        assert forall|t: int|
            crate::feasibility::occupancy(ua@, cd, t) == group_occupancy(m, p, a, cd, t) by {
            lemma_vec_group_occupancy(gvec@, p, a, cd, t);
            assert(covering_ids(gm, p, a, cd, t) =~= covering_ids(m, p, a, cd, t));
        }
        assert(crate::feasibility::feasible(ua@, cd, ch) == group_feasible(m, p, a, cd, ch)) by {
            if crate::feasibility::feasible(ua@, cd, ch) {
                assert forall|t: int| group_occupancy(m, p, a, cd, t) <= ch by {
                    assert(crate::feasibility::occupancy(ua@, cd, t) <= ch);
                }
            }
            if group_feasible(m, p, a, cd, ch) {
                assert forall|t: int| crate::feasibility::occupancy(ua@, cd, t) <= ch by {
                    assert(group_occupancy(m, p, a, cd, t) <= ch);
                }
            }
        }
    }
    ok
}

} // verus!
