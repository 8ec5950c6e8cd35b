//! Cooldown occupancy: how many uses of one action are live at a time.
//!
//! A use started at `u` with cooldown `cd` occupies a charge during the
//! half-open window `[u, u + cd)`.  A set of start times is feasible for an
//! action when no instant is covered by more uses than the action has
//! charges.  The executable check computes the peak occupancy, which is
//! always attained at one of the start times.

use vstd::prelude::*;

verus! {

/// A use started at `u` occupies a charge at time `t`.
pub open spec fn covers(u: int, cd: int, t: int) -> bool {
    u <= t < u + cd
}

/// The start time at index `i`, as a mathematical integer.
pub open spec fn start_at(s: Seq<i32>, i: int) -> int {
    s[i] as int
}

/// Number of start times in `s` whose window covers `t`.
pub open spec fn occupancy(s: Seq<i32>, cd: int, t: int) -> int
    decreases s.len(),
{
    if s.len() == 0 {
        0
    } else {
        occupancy(s.drop_last(), cd, t) + if covers(s.last() as int, cd, t) {
            1int
        } else {
            0int
        }
    }
}

/// No instant is covered by more than `charges` windows.
pub open spec fn feasible(s: Seq<i32>, cd: int, charges: int) -> bool {
    forall|t: int| occupancy(s, cd, t) <= charges
}

pub proof fn lemma_occupancy_bounds(s: Seq<i32>, cd: int, t: int)
    ensures
        0 <= occupancy(s, cd, t) <= s.len(),
    decreases s.len(),
{
    if s.len() > 0 {
        lemma_occupancy_bounds(s.drop_last(), cd, t);
    }
}

/// Extending a prefix by one start time adds that start's own contribution.
pub proof fn lemma_occupancy_step(s: Seq<i32>, cd: int, t: int, j: int)
    requires
        0 <= j < s.len(),
    ensures
        occupancy(s.subrange(0, j + 1), cd, t) == occupancy(s.subrange(0, j), cd, t) + if covers(
            start_at(s, j),
            cd,
            t,
        ) {
            1int
        } else {
            0int
        },
{
    let pre = s.subrange(0, j + 1);
    assert(pre.drop_last() =~= s.subrange(0, j));
    assert(pre.last() == s[j]);
}

/// If every window covering `t1` also covers `t2`, occupancy cannot drop.
pub proof fn lemma_occupancy_monotone(s: Seq<i32>, cd: int, t1: int, t2: int)
    requires
        forall|i: int|
            0 <= i < s.len() && covers(#[trigger] start_at(s, i), cd, t1) ==> covers(
                start_at(s, i),
                cd,
                t2,
            ),
    ensures
        occupancy(s, cd, t1) <= occupancy(s, cd, t2),
    decreases s.len(),
{
    if s.len() > 0 {
        let d = s.drop_last();
        assert(forall|i: int| 0 <= i < d.len() ==> start_at(d, i) == start_at(s, i));
        assert(forall|i: int|
            0 <= i < d.len() && covers(#[trigger] start_at(d, i), cd, t1) ==> covers(
                start_at(d, i),
                cd,
                t2,
            ));
        lemma_occupancy_monotone(d, cd, t1, t2);
        assert(s.last() as int == start_at(s, s.len() - 1));
    }
}

/// A positive occupancy at `t` names a start whose window covers `t`.
pub proof fn lemma_occupied_has_witness(s: Seq<i32>, cd: int, t: int)
    requires
        occupancy(s, cd, t) > 0,
    ensures
        exists|i: int| 0 <= i < s.len() && covers(#[trigger] start_at(s, i), cd, t),
    decreases s.len(),
{
    if s.len() > 0 {
        if covers(s.last() as int, cd, t) {
            assert(covers(start_at(s, s.len() - 1), cd, t));
        } else {
            let d = s.drop_last();
            lemma_occupied_has_witness(d, cd, t);
            let i = choose|i: int| 0 <= i < d.len() && covers(#[trigger] start_at(d, i), cd, t);
            assert(start_at(d, i) == start_at(s, i));
            assert(covers(start_at(s, i), cd, t));
        }
    }
}

/// Among the start times at or before `t` there is a latest one.
#[verifier::rlimit(30)]
pub proof fn lemma_latest_start(s: Seq<i32>, t: int)
    requires
        exists|i: int| 0 <= i < s.len() && #[trigger] start_at(s, i) <= t,
    ensures
        exists|k: int|
            0 <= k < s.len() && #[trigger] start_at(s, k) <= t && forall|m: int|
                0 <= m < s.len() && #[trigger] start_at(s, m) <= t ==> s[m] <= s[k],
    decreases s.len(),
{
    let last = s.len() - 1;
    let d = s.drop_last();
    assert(forall|i: int| 0 <= i < d.len() ==> start_at(d, i) == start_at(s, i));
    let w = choose|i: int| 0 <= i < s.len() && #[trigger] start_at(s, i) <= t;
    if !(exists|i: int| 0 <= i < d.len() && #[trigger] start_at(d, i) <= t) {
        // the only start at or before `t` is the last one
        assert(w == last);
        assert forall|m: int| 0 <= m < s.len() && #[trigger] start_at(s, m) <= t implies s[m]
            <= s[last] by {
            if m < last {
                assert(start_at(d, m) <= t);
            }
        }
        assert(start_at(s, last) <= t);
    } else {
        lemma_latest_start(d, t);
        let kd = choose|k: int|
            0 <= k < d.len() && #[trigger] start_at(d, k) <= t && forall|m: int|
                0 <= m < d.len() && #[trigger] start_at(d, m) <= t ==> d[m] <= d[k];
        if s.last() as int <= t && s[last] > s[kd] {
            assert(start_at(s, last) <= t);
            assert forall|m: int| 0 <= m < s.len() && #[trigger] start_at(s, m) <= t implies s[m]
                <= s[last] by {
                if m < last {
                    assert(start_at(d, m) <= t);
                    assert(d[m] <= d[kd]);
                }
            }
        } else {
            assert(start_at(s, kd) <= t);
            assert forall|m: int| 0 <= m < s.len() && #[trigger] start_at(s, m) <= t implies s[m]
                <= s[kd] by {
                if m < last {
                    assert(start_at(d, m) <= t);
                    assert(d[m] <= d[kd]);
                }
            }
        }
    }
}

/// The occupancy anywhere is matched or beaten at some start time.
pub proof fn lemma_peak_at_start(s: Seq<i32>, cd: int, t: int)
    requires
        occupancy(s, cd, t) > 0,
    ensures
        exists|k: int|
            0 <= k < s.len() && occupancy(s, cd, #[trigger] start_at(s, k)) >= occupancy(s, cd, t),
{
    lemma_occupied_has_witness(s, cd, t);
    let w = choose|i: int| 0 <= i < s.len() && covers(#[trigger] start_at(s, i), cd, t);
    assert(start_at(s, w) <= t);
    lemma_latest_start(s, t);
    let k = choose|k: int|
        0 <= k < s.len() && #[trigger] start_at(s, k) <= t && forall|m: int|
            0 <= m < s.len() && #[trigger] start_at(s, m) <= t ==> s[m] <= s[k];
    assert forall|i: int|
        0 <= i < s.len() && covers(#[trigger] start_at(s, i), cd, t) implies covers(
        start_at(s, i),
        cd,
        start_at(s, k),
    ) by {
        assert(start_at(s, i) <= t);
        assert(s[i] <= s[k]);
        assert(start_at(s, k) <= t < start_at(s, i) + cd);
    }
    lemma_occupancy_monotone(s, cd, t, start_at(s, k));
}

/// Peak concurrent occupancy over all instants; it is 0 for no start times
/// and otherwise attained at one of them.
pub fn peak_occupancy(use_ats: &Vec<i32>, cooldown: i32) -> (peak: usize)
    ensures
        peak <= use_ats@.len(),
        forall|t: int| occupancy(use_ats@, cooldown as int, t) <= peak as int,
        peak > 0 ==> exists|k: int|
            0 <= k < use_ats@.len() && occupancy(
                use_ats@,
                cooldown as int,
                #[trigger] start_at(use_ats@, k),
            ) == peak as int,
{
    let s = use_ats;
    let n = s.len();
    let mut peak: usize = 0;
    let mut i: usize = 0;
    while i < n
        invariant
            n == s@.len(),
            i <= n,
            peak <= n,
            forall|k: int|
                0 <= k < i ==> occupancy(s@, cooldown as int, #[trigger] start_at(s@, k))
                    <= peak as int,
            peak > 0 ==> exists|k: int|
                0 <= k < i && occupancy(s@, cooldown as int, #[trigger] start_at(s@, k))
                    == peak as int,
        decreases n - i,
    {
        let t = s[i];
        let mut c: usize = 0;
        let mut j: usize = 0;
        while j < n
            invariant
                n == s@.len(),
                j <= n,
                c <= j,
                c as int == occupancy(s@.subrange(0, j as int), cooldown as int, t as int),
            decreases n - j,
        {
            let uj = s[j];
            proof {
                lemma_occupancy_step(s@, cooldown as int, t as int, j as int);
            }
            if (uj as i64) <= (t as i64) && (t as i64) < (uj as i64) + (cooldown as i64) {
                c = c + 1;
            }
            j = j + 1;
        }
        proof {
            assert(s@.subrange(0, n as int) =~= s@);
            assert(start_at(s@, i as int) == t as int);
            assert(c as int == occupancy(s@, cooldown as int, start_at(s@, i as int)));
        }
        if c > peak {
            peak = c;
        }
        i = i + 1;
    }
    proof {
        assert forall|t: int| occupancy(s@, cooldown as int, t) <= peak as int by {
            if occupancy(s@, cooldown as int, t) > peak as int {
                lemma_peak_at_start(s@, cooldown as int, t);
            }
        }
    }
    peak
}

/// Whether the start times respect the charge bound of the action.
pub fn fits_charges(use_ats: &Vec<i32>, cooldown: i32, charges: i32) -> (ok: bool)
    ensures
        ok == feasible(use_ats@, cooldown as int, charges as int),
{
    let peak = peak_occupancy(use_ats, cooldown);
    let ok = charges >= 0 && peak <= charges as usize;
    proof {
        if ok {
            assert(forall|t: int|
                #[trigger] occupancy(use_ats@, cooldown as int, t) <= charges as int);
        } else {
            if charges < 0 {
                lemma_occupancy_bounds(use_ats@, cooldown as int, 0);
                assert(occupancy(use_ats@, cooldown as int, 0) > charges as int);
            } else {
                let k = choose|k: int|
                    0 <= k < use_ats@.len() && occupancy(
                        use_ats@,
                        cooldown as int,
                        #[trigger] start_at(use_ats@, k),
                    ) == peak as int;
                assert(occupancy(use_ats@, cooldown as int, start_at(use_ats@, k))
                    > charges as int);
            }
        }
    }
    ok
}

} // verus!
