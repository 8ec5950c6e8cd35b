//! Static action catalog, loaded once at process start.
//!
//! Each row gives the cooldown and charge count of one action under one job
//! tag.  Rows are keyed by `(job, action id)`; the first loaded row for a key
//! wins, mirroring a primary-keyed source table.

use vstd::prelude::*;
use crate::types::{ActionInfo, Job};

verus! {

/// One catalog row: an action available to a job.
#[derive(Clone, Copy, Debug, PartialEq, Eq)]
pub struct JobAction {
    pub job: Job,
    pub info: ActionInfo,
}

/// The process-wide action table.
#[derive(Clone, Debug, PartialEq, Eq)]
pub struct ActionCatalog {
    pub rows: Vec<JobAction>,
}

pub open spec fn row_key(r: JobAction) -> (Job, u128) {
    (r.job, r.info.id)
}

pub open spec fn no_dup_row_keys(s: Seq<JobAction>) -> bool {
    forall|i: int, j: int| 0 <= i < j < s.len() ==> row_key(s[i]) != row_key(s[j])
}

pub open spec fn catalog_map(s: Seq<JobAction>) -> Map<(Job, u128), ActionInfo>
    decreases s.len(),
{
    if s.len() == 0 {
        Map::empty()
    } else {
        catalog_map(s.drop_last()).insert(row_key(s.last()), s.last().info)
    }
}

pub proof fn lemma_catalog_map_dom(s: Seq<JobAction>)
    ensures
        forall|k: (Job, u128)|
            #[trigger] catalog_map(s).dom().contains(k) <==> exists|i: int|
                0 <= i < s.len() && row_key(#[trigger] s[i]) == k,
        catalog_map(s).dom().finite(),
    decreases s.len(),
{
    if s.len() > 0 {
        lemma_catalog_map_dom(s.drop_last());
        let d = s.drop_last();
        assert forall|k: (Job, u128)|
            #[trigger] catalog_map(s).dom().contains(k) implies exists|i: int|
            0 <= i < s.len() && row_key(#[trigger] s[i]) == k by {
            if k == row_key(s.last()) {
                assert(row_key(s[s.len() - 1]) == k);
            } else {
                let i = choose|i: int| 0 <= i < d.len() && row_key(#[trigger] d[i]) == k;
                assert(row_key(s[i]) == k);
            }
        }
        assert forall|k: (Job, u128)|
            exists|i: int|
                0 <= i < s.len() && row_key(#[trigger] s[i]) == k implies #[trigger] catalog_map(
            s,
        ).dom().contains(k) by {
            let i = choose|i: int| 0 <= i < s.len() && row_key(#[trigger] s[i]) == k;
            if i < s.len() - 1 {
                assert(row_key(d[i]) == k);
            }
        }
    }
}

pub proof fn lemma_catalog_map_index(s: Seq<JobAction>, i: int)
    requires
        no_dup_row_keys(s),
        0 <= i < s.len(),
    ensures
        catalog_map(s).dom().contains(row_key(s[i])),
        catalog_map(s)[row_key(s[i])] == s[i].info,
    decreases s.len(),
{
    if i < s.len() - 1 {
        let d = s.drop_last();
        assert(d[i] == s[i]);
        lemma_catalog_map_index(d, i);
        assert(row_key(s[i]) != row_key(s.last()));
    }
}

impl ActionCatalog {
    pub open spec fn map_view(self) -> Map<(Job, u128), ActionInfo> {
        catalog_map(self.rows@)
    }

    pub open spec fn wf(self) -> bool {
        no_dup_row_keys(self.rows@)
    }

    /// Cooldown and charges of action `a` under job `j`, if cataloged.
    pub open spec fn action_entry(self, j: Job, a: u128) -> Option<ActionInfo> {
        if self.map_view().dom().contains((j, a)) {
            Some(self.map_view()[(j, a)])
        } else {
            None
        }
    }

    pub fn new() -> (r: ActionCatalog)
        ensures
            r.wf(),
            forall|j: Job, a: u128| #[trigger] r.action_entry(j, a) is None,
    {
        let r = ActionCatalog { rows: Vec::new() };
        proof {
            assert(r.rows@.len() == 0);
        }
        r
    }

    /// Find the catalog row of `(j, a)`.
    pub fn get(&self, j: Job, a: u128) -> (r: Option<ActionInfo>)
        requires
            self.wf(),
        ensures
            r == self.action_entry(j, a),
    {
        proof {
            lemma_catalog_map_dom(self.rows@);
        }
        let n = self.rows.len();
        let mut i: usize = 0;
        while i < n
            invariant
                n == self.rows@.len(),
                i <= n,
                self.wf(),
                forall|k: int| 0 <= k < i ==> row_key(#[trigger] self.rows@[k]) != (j, a),
            decreases n - i,
        {
            let row = self.rows[i];
            if row.job == j && row.info.id == a {
                proof {
                    lemma_catalog_map_index(self.rows@, i as int);
                    assert(row_key(self.rows@[i as int]) == (j, a));
                }
                return Some(row.info);
            }
            i = i + 1;
        }
        proof {
            lemma_catalog_map_dom(self.rows@);
            assert(!self.map_view().dom().contains((j, a))) by {
                if self.map_view().dom().contains((j, a)) {
                    let k = choose|k: int|
                        0 <= k < self.rows@.len() && row_key(#[trigger] self.rows@[k]) == (j, a);
                }
            }
        }
        None
    }

    /// Load one catalog row; the first row loaded for a key is kept.
    pub fn add(&mut self, j: Job, info: ActionInfo)
        requires
            old(self).wf(),
        ensures
            final(self).wf(),
            final(self).action_entry(j, info.id) is Some,
            old(self).action_entry(j, info.id) is Some ==> *final(self) == *old(self),
            old(self).action_entry(j, info.id) is None ==> final(self).action_entry(j, info.id)
                == Some(info),
            forall|j2: Job, a2: u128|
                !(j2 == j && a2 == info.id) ==> #[trigger] final(self).action_entry(j2, a2) == old(
                    self,
                ).action_entry(j2, a2),
    {
        let existing = self.get(j, info.id);
        if existing.is_none() {
            proof {
                lemma_catalog_map_dom(self.rows@);
                assert(forall|k: int|
                    0 <= k < self.rows@.len() ==> row_key(#[trigger] self.rows@[k]) != (
                    j,
                    info.id,
                )) by {
                    assert forall|k: int| 0 <= k < self.rows@.len() implies row_key(
                        #[trigger] self.rows@[k],
                    ) != (j, info.id) by {
                        assert(catalog_map(self.rows@).dom().contains(row_key(self.rows@[k])));
                    }
                }
            }
            let ghost rows0 = self.rows@;
            self.rows.push(JobAction { job: j, info });
            proof {
                assert(self.rows@.drop_last() =~= rows0);
                assert(row_key(self.rows@.last()) == (j, info.id));
                assert(forall|k: int, l: int|
                    0 <= k < l < self.rows@.len() ==> row_key(self.rows@[k]) != row_key(
                        self.rows@[l],
                    ));
            }
        }
    }
}

} // verus!
