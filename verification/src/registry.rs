//! The process-wide registry: one session per strategy while peers are
//! attached, one record per peer token.
//!
//! The registry keeps the rosters and the records linked: every live peer
//! record points at a present session whose roster carries its token, with
//! a consistent raid.  A session is created by the first subscription and
//! disposed when its last peer leaves; that disposal is safe exactly
//! because of the linkage.  Operations on one strategy leave every other
//! strategy's session untouched.

use vstd::prelude::*;
use crate::session::{join_peer, peers_wf, remove_peer};
use crate::types::{DamageOption, Entry, PeerContext, Player, StrategyContext};

verus! {

/// One session slot, keyed by strategy id.
#[derive(Clone, Debug, PartialEq, Eq)]
pub struct StrategySlot {
    pub id: u128,
    pub ctx: StrategyContext,
}

/// One peer record, keyed by the peer's opaque token.
#[derive(Clone, Copy, Debug, PartialEq, Eq)]
pub struct PeerSlot {
    pub token: u128,
    pub peer: PeerContext,
}

/// Sessions and peer records.
#[derive(Clone, Debug, PartialEq, Eq)]
pub struct Registry {
    pub strategies: Vec<StrategySlot>,
    pub peers: Vec<PeerSlot>,
}

pub open spec fn no_dup_strategy_slots(s: Seq<StrategySlot>) -> bool {
    forall|i: int, j: int| 0 <= i < j < s.len() ==> s[i].id != s[j].id
}

pub open spec fn strategies_map(s: Seq<StrategySlot>) -> Map<u128, StrategyContext>
    decreases s.len(),
{
    if s.len() == 0 {
        Map::empty()
    } else {
        strategies_map(s.drop_last()).insert(s.last().id, s.last().ctx)
    }
}

pub open spec fn no_dup_peer_slots(s: Seq<PeerSlot>) -> bool {
    forall|i: int, j: int| 0 <= i < j < s.len() ==> s[i].token != s[j].token
}

pub open spec fn peer_records_map(s: Seq<PeerSlot>) -> Map<u128, PeerContext>
    decreases s.len(),
{
    if s.len() == 0 {
        Map::empty()
    } else {
        peer_records_map(s.drop_last()).insert(s.last().token, s.last().peer)
    }
}

pub proof fn lemma_strategies_map_dom(s: Seq<StrategySlot>)
    ensures
        forall|id: u128|
            #[trigger] strategies_map(s).dom().contains(id) <==> exists|i: int|
                0 <= i < s.len() && (#[trigger] s[i]).id == id,
        strategies_map(s).dom().finite(),
    decreases s.len(),
{
    if s.len() > 0 {
        lemma_strategies_map_dom(s.drop_last());
        let d = s.drop_last();
        assert forall|id: u128|
            #[trigger] strategies_map(s).dom().contains(id) implies exists|i: int|
            0 <= i < s.len() && (#[trigger] s[i]).id == id by {
            if id == s.last().id {
                assert(s[s.len() - 1].id == id);
            } else {
                let i = choose|i: int| 0 <= i < d.len() && (#[trigger] d[i]).id == id;
                assert(s[i].id == id);
            }
        }
        assert forall|id: u128|
            exists|i: int|
                0 <= i < s.len() && (#[trigger] s[i]).id == id implies #[trigger] strategies_map(
            s,
        ).dom().contains(id) by {
            let i = choose|i: int| 0 <= i < s.len() && (#[trigger] s[i]).id == id;
            if i < s.len() - 1 {
                assert(d[i].id == id);
            }
        }
    }
}

pub proof fn lemma_strategies_map_index(s: Seq<StrategySlot>, i: int)
    requires
        no_dup_strategy_slots(s),
        0 <= i < s.len(),
    ensures
        strategies_map(s).dom().contains(s[i].id),
        strategies_map(s)[s[i].id] == s[i].ctx,
    decreases s.len(),
{
    if i < s.len() - 1 {
        let d = s.drop_last();
        assert(d[i] == s[i]);
        lemma_strategies_map_index(d, i);
        assert(s[i].id != s.last().id);
    }
}

pub proof fn lemma_peer_records_map_dom(s: Seq<PeerSlot>)
    ensures
        forall|t: u128|
            #[trigger] peer_records_map(s).dom().contains(t) <==> exists|i: int|
                0 <= i < s.len() && (#[trigger] s[i]).token == t,
        peer_records_map(s).dom().finite(),
    decreases s.len(),
{
    if s.len() > 0 {
        lemma_peer_records_map_dom(s.drop_last());
        let d = s.drop_last();
        assert forall|t: u128|
            #[trigger] peer_records_map(s).dom().contains(t) implies exists|i: int|
            0 <= i < s.len() && (#[trigger] s[i]).token == t by {
            if t == s.last().token {
                assert(s[s.len() - 1].token == t);
            } else {
                let i = choose|i: int| 0 <= i < d.len() && (#[trigger] d[i]).token == t;
                assert(s[i].token == t);
            }
        }
        assert forall|t: u128|
            exists|i: int|
                0 <= i < s.len() && (#[trigger] s[i]).token
                    == t implies #[trigger] peer_records_map(s).dom().contains(t) by {
            let i = choose|i: int| 0 <= i < s.len() && (#[trigger] s[i]).token == t;
            if i < s.len() - 1 {
                assert(d[i].token == t);
            }
        }
    }
}

pub proof fn lemma_peer_records_map_index(s: Seq<PeerSlot>, i: int)
    requires
        no_dup_peer_slots(s),
        0 <= i < s.len(),
    ensures
        peer_records_map(s).dom().contains(s[i].token),
        peer_records_map(s)[s[i].token] == s[i].peer,
    decreases s.len(),
{
    if i < s.len() - 1 {
        let d = s.drop_last();
        assert(d[i] == s[i]);
        lemma_peer_records_map_index(d, i);
        assert(s[i].token != s.last().token);
    }
}

/// Erasing the slot at `i` by a swap with the last slot removes its key.
pub proof fn lemma_strategy_slots_erase(s: Seq<StrategySlot>, i: int)
    requires
        no_dup_strategy_slots(s),
        0 <= i < s.len(),
    ensures
        no_dup_strategy_slots(s.update(i, s.last()).drop_last()),
        strategies_map(s.update(i, s.last()).drop_last()) == strategies_map(s).remove(s[i].id),
{
    let t = s.update(i, s.last()).drop_last();
    lemma_strategies_map_dom(s);
    lemma_strategies_map_dom(t);
    assert(forall|j: int| 0 <= j < t.len() && j != i ==> t[j] == s[j]);
    assert(i < s.len() - 1 ==> t[i] == s.last());
    assert forall|a: int, b: int| 0 <= a < b < t.len() implies t[a].id != t[b].id by {
        if a == i {
            assert(t[a] == s[s.len() - 1] && t[b] == s[b]);
        } else if b == i {
            assert(t[b] == s[s.len() - 1] && t[a] == s[a]);
        }
    }
    assert forall|k: u128| #[trigger] strategies_map(t).dom().contains(k) implies strategies_map(
        s,
    ).remove(s[i].id).dom().contains(k) by {
        let j = choose|j: int| 0 <= j < t.len() && (#[trigger] t[j]).id == k;
        if j == i {
            assert(s[s.len() - 1].id == k);
            assert(k != s[i].id);
        } else {
            assert(s[j].id == k);
            assert(k != s[i].id);
        }
    }
    assert forall|k: u128|
        strategies_map(s).remove(s[i].id).dom().contains(k) implies #[trigger] strategies_map(
        t,
    ).dom().contains(k) by {
        let j = choose|j: int| 0 <= j < s.len() && (#[trigger] s[j]).id == k;
        assert(j != i);
        if j == s.len() - 1 {
            if i < s.len() - 1 {
                assert(t[i].id == k);
            }
        } else {
            assert(t[j].id == k);
        }
    }
    assert forall|k: u128| #[trigger] strategies_map(t).dom().contains(k) implies strategies_map(
        t,
    )[k] == strategies_map(s).remove(s[i].id)[k] by {
        let j = choose|j: int| 0 <= j < t.len() && (#[trigger] t[j]).id == k;
        lemma_strategies_map_index(t, j);
        if j == i {
            lemma_strategies_map_index(s, s.len() - 1);
            assert(t[j].ctx == s[s.len() - 1].ctx);
        } else {
            lemma_strategies_map_index(s, j);
        }
    }
    assert(strategies_map(t) =~= strategies_map(s).remove(s[i].id));
}

/// Erasing the peer slot at `i` by a swap with the last slot removes its
/// token.
pub proof fn lemma_peer_slots_erase(s: Seq<PeerSlot>, i: int)
    requires
        no_dup_peer_slots(s),
        0 <= i < s.len(),
    ensures
        no_dup_peer_slots(s.update(i, s.last()).drop_last()),
        peer_records_map(s.update(i, s.last()).drop_last()) == peer_records_map(s).remove(
            s[i].token,
        ),
{
    let t = s.update(i, s.last()).drop_last();
    lemma_peer_records_map_dom(s);
    lemma_peer_records_map_dom(t);
    assert(forall|j: int| 0 <= j < t.len() && j != i ==> t[j] == s[j]);
    assert(i < s.len() - 1 ==> t[i] == s.last());
    assert forall|a: int, b: int| 0 <= a < b < t.len() implies t[a].token != t[b].token by {
        if a == i {
            assert(t[a] == s[s.len() - 1] && t[b] == s[b]);
        } else if b == i {
            assert(t[b] == s[s.len() - 1] && t[a] == s[a]);
        }
    }
    assert forall|k: u128|
        #[trigger] peer_records_map(t).dom().contains(k) implies peer_records_map(s).remove(
        s[i].token,
    ).dom().contains(k) by {
        let j = choose|j: int| 0 <= j < t.len() && (#[trigger] t[j]).token == k;
        if j == i {
            assert(s[s.len() - 1].token == k);
            assert(k != s[i].token);
        } else {
            assert(s[j].token == k);
            assert(k != s[i].token);
        }
    }
    assert forall|k: u128|
        peer_records_map(s).remove(s[i].token).dom().contains(
            k,
        ) implies #[trigger] peer_records_map(t).dom().contains(k) by {
        let j = choose|j: int| 0 <= j < s.len() && (#[trigger] s[j]).token == k;
        assert(j != i);
        if j == s.len() - 1 {
            if i < s.len() - 1 {
                assert(t[i].token == k);
            }
        } else {
            assert(t[j].token == k);
        }
    }
    assert forall|k: u128|
        #[trigger] peer_records_map(t).dom().contains(k) implies peer_records_map(t)[k]
        == peer_records_map(s).remove(s[i].token)[k] by {
        let j = choose|j: int| 0 <= j < t.len() && (#[trigger] t[j]).token == k;
        lemma_peer_records_map_index(t, j);
        if j == i {
            lemma_peer_records_map_index(s, s.len() - 1);
            assert(t[j].peer == s[s.len() - 1].peer);
        } else {
            lemma_peer_records_map_index(s, j);
        }
    }
    assert(peer_records_map(t) =~= peer_records_map(s).remove(s[i].token));
}

/// Registry invariant: unique keys, well-formed rosters, and every peer
/// record linked to a present session that carries its token.
pub open spec fn registry_wf(r: Registry) -> bool {
    &&& no_dup_strategy_slots(r.strategies@)
    &&& no_dup_peer_slots(r.peers@)
    &&& forall|i: int|
        0 <= i < r.strategies@.len() ==> peers_wf((#[trigger] r.strategies@[i]).ctx)
    &&& forall|i: int|
        0 <= i < r.peers@.len() ==> {
            let ps = #[trigger] r.peers@[i];
            &&& strategies_map(r.strategies@).dom().contains(ps.peer.strategy_id)
            &&& strategies_map(r.strategies@)[ps.peer.strategy_id].peers@.contains(ps.token)
            &&& strategies_map(r.strategies@)[ps.peer.strategy_id].raid_id == ps.peer.raid_id
            &&& ps.peer.strategy_id == r.peers@[i].peer.strategy_id
        }
}

impl Registry {
    pub fn new() -> (r: Registry)
        ensures
            registry_wf(r),
            strategies_map(r.strategies@) == Map::<u128, StrategyContext>::empty(),
            peer_records_map(r.peers@) == Map::<u128, PeerContext>::empty(),
    {
        Registry { strategies: Vec::new(), peers: Vec::new() }
    }

    fn strategy_index(&self, id: u128) -> (r: Option<usize>)
        requires
            no_dup_strategy_slots(self.strategies@),
        ensures
            match r {
                Some(i) => i < self.strategies@.len() && self.strategies@[i as int].id == id,
                None => !strategies_map(self.strategies@).dom().contains(id),
            },
    {
        let n = self.strategies.len();
        let mut i: usize = 0;
        while i < n
            invariant
                n == self.strategies@.len(),
                i <= n,
                forall|k: int| 0 <= k < i ==> (#[trigger] self.strategies@[k]).id != id,
            decreases n - i,
        {
            if self.strategies[i].id == id {
                return Some(i);
            }
            i = i + 1;
        }
        proof {
            lemma_strategies_map_dom(self.strategies@);
        }
        None
    }

    fn peer_index(&self, token: u128) -> (r: Option<usize>)
        requires
            no_dup_peer_slots(self.peers@),
        ensures
            match r {
                Some(i) => i < self.peers@.len() && self.peers@[i as int].token == token,
                None => !peer_records_map(self.peers@).dom().contains(token),
            },
    {
        let n = self.peers.len();
        let mut i: usize = 0;
        while i < n
            invariant
                n == self.peers@.len(),
                i <= n,
                forall|k: int| 0 <= k < i ==> (#[trigger] self.peers@[k]).token != token,
            decreases n - i,
        {
            if self.peers[i].token == token {
                return Some(i);
            }
            i = i + 1;
        }
        proof {
            lemma_peer_records_map_dom(self.peers@);
        }
        None
    }

    /// The live session of a strategy, if any peer is attached.
    pub fn strategy_of(&self, id: u128) -> (r: Option<&StrategyContext>)
        requires
            no_dup_strategy_slots(self.strategies@),
        ensures
            match r {
                Some(c) => strategies_map(self.strategies@).dom().contains(id)
                    && *c == strategies_map(self.strategies@)[id],
                None => !strategies_map(self.strategies@).dom().contains(id),
            },
    {
        match self.strategy_index(id) {
            Some(i) => {
                proof {
                    lemma_strategies_map_index(self.strategies@, i as int);
                }
                Some(&self.strategies[i].ctx)
            },
            None => None,
        }
    }

    /// The record of a peer token, if the peer is live.
    pub fn peer_of(&self, token: u128) -> (r: Option<PeerContext>)
        requires
            no_dup_peer_slots(self.peers@),
        ensures
            match r {
                Some(p) => peer_records_map(self.peers@).dom().contains(token) && p
                    == peer_records_map(self.peers@)[token],
                None => !peer_records_map(self.peers@).dom().contains(token),
            },
    {
        match self.peer_index(token) {
            Some(i) => {
                proof {
                    lemma_peer_records_map_index(self.peers@, i as int);
                }
                Some(self.peers[i].peer)
            },
            None => None,
        }
    }
}

/// What eviction found and did.
#[derive(Clone, Copy, Debug, PartialEq, Eq)]
pub enum EvictOutcome {
    /// No live peer carries the token.
    NoPeer,
    /// The peer left; its session keeps other peers.
    Kept(u128),
    /// The peer was the session's last: the session is disposed.
    Disposed(u128),
}

impl Registry {
    /// Register a subscribing peer: extend the live session, or install a
    /// fresh one built from the given persisted state.  Only the subscribed
    /// strategy's session changes.
    #[verifier::rlimit(100)]
    pub fn subscribe(
        &mut self,
        strategy_id: u128,
        raid_id: u128,
        token: u128,
        is_author: bool,
        players: Vec<Player>,
        damage_options: Vec<DamageOption>,
        entries: Vec<Entry>,
    )
        requires
            registry_wf(*old(self)),
            !peer_records_map(old(self).peers@).dom().contains(token),
            strategies_map(old(self).strategies@).dom().contains(strategy_id) ==> strategies_map(
                old(self).strategies@,
            )[strategy_id].raid_id == raid_id,
        ensures
            registry_wf(*final(self)),
            peer_records_map(final(self).peers@) == peer_records_map(old(self).peers@).insert(
                token,
                PeerContext { strategy_id, raid_id, is_author },
            ),
            ({
                let sm0 = strategies_map(old(self).strategies@);
                let smf = strategies_map(final(self).strategies@);
                &&& smf.dom() =~= sm0.dom().insert(strategy_id)
                &&& forall|k: u128|
                    k != strategy_id && sm0.dom().contains(k) ==> #[trigger] smf[k] == sm0[k]
                &&& smf[strategy_id].peers@.contains(token)
                &&& (is_author ==> smf[strategy_id].elevated_peers@.contains(token))
                &&& smf[strategy_id].raid_id == raid_id
                &&& (sm0.dom().contains(strategy_id) ==> {
                    let c0 = sm0[strategy_id];
                    let c1 = smf[strategy_id];
                    &&& c1.players@ == c0.players@
                    &&& c1.damage_options@ == c0.damage_options@
                    &&& c1.entries@ == c0.entries@
                    &&& c1.peers@ == if c0.peers@.contains(token) {
                        c0.peers@
                    } else {
                        c0.peers@.push(token)
                    }
                    &&& c1.elevated_peers@ == if is_author && !c0.elevated_peers@.contains(
                        token,
                    ) {
                        c0.elevated_peers@.push(token)
                    } else {
                        c0.elevated_peers@
                    }
                })
                &&& (!sm0.dom().contains(strategy_id) ==> {
                    let c1 = smf[strategy_id];
                    &&& c1.players@ == players@
                    &&& c1.damage_options@ == damage_options@
                    &&& c1.entries@ == entries@
                    &&& c1.peers@ =~= seq![token]
                    &&& c1.elevated_peers@ =~= if is_author {
                        seq![token]
                    } else {
                        Seq::<u128>::empty()
                    }
                })
            }),
    {
        let ghost sm0 = strategies_map(self.strategies@);
        let ghost oldpeers = self.peers@;
        match self.strategy_index(strategy_id) {
            Some(i) => {
                proof {
                    lemma_strategies_map_index(self.strategies@, i as int);
                }
                let ghost s0 = self.strategies@;
                let mut slot = self.strategies.swap_remove(i);
                proof {
                    lemma_strategy_slots_erase(s0, i as int);
                    assert(peers_wf(slot.ctx)) by {
                        assert(s0[i as int].ctx == slot.ctx);
                    }
                }
                let ghost prejoin = slot.ctx;
                join_peer(&mut slot.ctx, token, is_author);
                let ghost s1 = self.strategies@;
                let ghost newctx = slot.ctx;
                proof {
                    if is_author {
                        if !prejoin.elevated_peers@.contains(token) {
                            assert(newctx.elevated_peers@ == prejoin.elevated_peers@.push(
                                token,
                            ));
                            assert(newctx.elevated_peers@[newctx.elevated_peers@.len() - 1]
                                == token);
                        }
                        assert(newctx.elevated_peers@.contains(token));
                    }
                }
                self.strategies.push(slot);
                proof {
                    assert(self.strategies@.drop_last() =~= s1);
                    assert(self.strategies@.last().id == strategy_id
                        && self.strategies@.last().ctx == newctx);
                    lemma_strategies_map_dom(s1);
                    assert(forall|k: int|
                        0 <= k < s1.len() ==> (#[trigger] s1[k]).id != strategy_id) by {
                        assert forall|k: int|
                            0 <= k < s1.len() implies (#[trigger] s1[k]).id != strategy_id by {
                            if s1[k].id == strategy_id {
                                assert(strategies_map(s1).dom().contains(strategy_id));
                            }
                        }
                    }
                    assert(no_dup_strategy_slots(self.strategies@)) by {
                        assert(forall|a: int|
                            0 <= a < s1.len() ==> self.strategies@[a] == s1[a]);
                    }
                    assert(strategies_map(self.strategies@) =~= sm0.insert(
                        strategy_id,
                        newctx,
                    ));
                }
            },
            None => {
                let mut peers_v: Vec<u128> = Vec::new();
                peers_v.push(token);
                let mut elevated_v: Vec<u128> = Vec::new();
                if is_author {
                    elevated_v.push(token);
                }
                let ghost pv = peers_v@;
                let ghost ev = elevated_v@;
                let ctx = StrategyContext {
                    raid_id,
                    peers: peers_v,
                    elevated_peers: elevated_v,
                    players,
                    damage_options,
                    entries,
                };
                proof {
                    assert(pv =~= seq![token]);
                    if is_author {
                        assert(ev =~= seq![token]);
                        assert(ctx.elevated_peers@.contains(token)) by {
                            assert(ctx.elevated_peers@[0] == token);
                        }
                    } else {
                        assert(ev =~= Seq::<u128>::empty());
                    }
                    assert(ctx.peers@[0] == token);
                    assert(ctx.peers@.contains(token));
                    assert(peers_wf(ctx)) by {
                        assert forall|k: int|
                            0 <= k < ctx.elevated_peers@.len() implies ctx.peers@.contains(
                            #[trigger] ctx.elevated_peers@[k],
                        ) by {
                            assert(ctx.elevated_peers@[k] == token);
                        }
                    }
                }
                let ghost s1 = self.strategies@;
                let ghost newctx = ctx;
                self.strategies.push(StrategySlot { id: strategy_id, ctx });
                proof {
                    assert(self.strategies@.drop_last() =~= s1);
                    lemma_strategies_map_dom(s1);
                    assert forall|k: int|
                        0 <= k < s1.len() implies (#[trigger] s1[k]).id != strategy_id by {
                        if s1[k].id == strategy_id {
                            assert(strategies_map(s1).dom().contains(strategy_id));
                        }
                    }
                    assert(no_dup_strategy_slots(self.strategies@)) by {
                        assert(forall|a: int|
                            0 <= a < s1.len() ==> self.strategies@[a] == s1[a]);
                    }
                    assert(strategies_map(self.strategies@) =~= sm0.insert(
                        strategy_id,
                        newctx,
                    ));
                }
            },
        }
        let ghost p0 = self.peers@;
        self.peers.push(
            PeerSlot { token, peer: PeerContext { strategy_id, raid_id, is_author } },
        );
        proof {
            assert(self.peers@.drop_last() =~= p0);
            lemma_peer_records_map_dom(p0);
            assert forall|k: int| 0 <= k < p0.len() implies (#[trigger] p0[k]).token
                != token by {
                if p0[k].token == token {
                    assert(peer_records_map(p0).dom().contains(token));
                }
            }
            assert(no_dup_peer_slots(self.peers@)) by {
                assert(forall|a: int| 0 <= a < p0.len() ==> self.peers@[a] == p0[a]);
            }
            let smf = strategies_map(self.strategies@);
            let sm0v = sm0;
            // every slot's roster is well-formed, via its map value
            assert forall|i: int|
                0 <= i < self.strategies@.len() implies peers_wf(
                (#[trigger] self.strategies@[i]).ctx,
            ) by {
                lemma_strategies_map_index(self.strategies@, i);
                let k = self.strategies@[i].id;
                if k != strategy_id {
                    lemma_strategies_map_dom(old(self).strategies@);
                    let j = choose|j: int|
                        0 <= j < old(self).strategies@.len() && (#[trigger] old(
                            self,
                        ).strategies@[j]).id == k;
                    lemma_strategies_map_index(old(self).strategies@, j);
                    assert(old(self).strategies@[j].ctx == smf[k]);
                }
            }
            // every record is linked to a session that carries its token
            assert forall|i: int| 0 <= i < self.peers@.len() implies {
                let ps = #[trigger] self.peers@[i];
                &&& smf.dom().contains(ps.peer.strategy_id)
                &&& smf[ps.peer.strategy_id].peers@.contains(ps.token)
                &&& smf[ps.peer.strategy_id].raid_id == ps.peer.raid_id
            } by {
                let ps = self.peers@[i];
                if i < p0.len() {
                    assert(ps == p0[i]);
                    let sid = ps.peer.strategy_id;
                    assert(sm0v.dom().contains(sid));
                    if sid == strategy_id {
                        let c0 = sm0v[strategy_id];
                        let c1 = smf[strategy_id];
                        assert(c0.peers@.contains(ps.token));
                        if !c0.peers@.contains(token) {
                            let x = choose|x: int|
                                0 <= x < c0.peers@.len() && c0.peers@[x] == ps.token;
                            assert(c1.peers@[x] == ps.token);
                        }
                        assert(c1.peers@.contains(ps.token));
                    }
                } else {
                    assert(ps.token == token && ps.peer.strategy_id == strategy_id);
                }
            }
        }
    }

    /// Publish a mutated session context in place of the current one.  The
    /// rosters must be carried over unchanged, so every peer record stays
    /// linked.
    pub fn replace_session(&mut self, strategy_id: u128, ctx: StrategyContext)
        requires
            registry_wf(*old(self)),
            strategies_map(old(self).strategies@).dom().contains(strategy_id),
            ctx.peers@ == strategies_map(old(self).strategies@)[strategy_id].peers@,
            ctx.raid_id == strategies_map(old(self).strategies@)[strategy_id].raid_id,
            peers_wf(ctx),
        ensures
            registry_wf(*final(self)),
            peer_records_map(final(self).peers@) == peer_records_map(old(self).peers@),
            strategies_map(final(self).strategies@) == strategies_map(
                old(self).strategies@,
            ).insert(strategy_id, ctx),
    {
        let ghost sm0 = strategies_map(self.strategies@);
        let i = match self.strategy_index(strategy_id) {
            Some(i) => i,
            None => {
                proof {
                    assert(false);
                }
                return ;
            },
        };
        proof {
            lemma_strategies_map_index(self.strategies@, i as int);
        }
        let ghost s0 = self.strategies@;
        let _old_slot = self.strategies.swap_remove(i);
        proof {
            lemma_strategy_slots_erase(s0, i as int);
        }
        let ghost s1 = self.strategies@;
        self.strategies.push(StrategySlot { id: strategy_id, ctx });
        proof {
            assert(self.strategies@.drop_last() =~= s1);
            lemma_strategies_map_dom(s1);
            assert forall|k: int| 0 <= k < s1.len() implies (#[trigger] s1[k]).id
                != strategy_id by {
                if s1[k].id == strategy_id {
                    assert(strategies_map(s1).dom().contains(strategy_id));
                }
            }
            assert(no_dup_strategy_slots(self.strategies@)) by {
                assert(forall|a: int| 0 <= a < s1.len() ==> self.strategies@[a] == s1[a]);
            }
            let smf = strategies_map(self.strategies@);
            assert(smf =~= sm0.insert(strategy_id, ctx));
            assert forall|j: int|
                0 <= j < self.strategies@.len() implies peers_wf(
                (#[trigger] self.strategies@[j]).ctx,
            ) by {
                lemma_strategies_map_index(self.strategies@, j);
                let k = self.strategies@[j].id;
                if k != strategy_id {
                    lemma_strategies_map_dom(old(self).strategies@);
                    let x = choose|x: int|
                        0 <= x < old(self).strategies@.len() && (#[trigger] old(
                            self,
                        ).strategies@[x]).id == k;
                    lemma_strategies_map_index(old(self).strategies@, x);
                }
            }
            assert forall|j: int| 0 <= j < self.peers@.len() implies {
                let ps = #[trigger] self.peers@[j];
                &&& smf.dom().contains(ps.peer.strategy_id)
                &&& smf[ps.peer.strategy_id].peers@.contains(ps.token)
                &&& smf[ps.peer.strategy_id].raid_id == ps.peer.raid_id
            } by {
                let ps = self.peers@[j];
            }
        }
    }

    /// Evict one peer: the record is dropped, the token leaves its
    /// session's rosters, and a session left without peers is disposed.
    /// Only that session changes.
    #[verifier::rlimit(100)]
    pub fn evict_peer(&mut self, token: u128) -> (r: EvictOutcome)
        requires
            registry_wf(*old(self)),
        ensures
            registry_wf(*final(self)),
            ({
                let sm0 = strategies_map(old(self).strategies@);
                let pm0 = peer_records_map(old(self).peers@);
                let smf = strategies_map(final(self).strategies@);
                let pmf = peer_records_map(final(self).peers@);
                match r {
                    EvictOutcome::NoPeer => !pm0.dom().contains(token) && smf == sm0 && pmf
                        == pm0,
                    EvictOutcome::Kept(sid) => {
                        &&& pm0.dom().contains(token)
                        &&& sid == pm0[token].strategy_id
                        &&& pmf == pm0.remove(token)
                        &&& smf.dom() =~= sm0.dom()
                        &&& forall|k: u128|
                            k != sid && sm0.dom().contains(k) ==> #[trigger] smf[k] == sm0[k]
                        &&& smf[sid].peers@ == sm0[sid].peers@.filter(|t: u128| t != token)
                        &&& smf[sid].elevated_peers@ == sm0[sid].elevated_peers@.filter(
                            |t: u128| t != token,
                        )
                        &&& smf[sid].players@ == sm0[sid].players@
                        &&& smf[sid].damage_options@ == sm0[sid].damage_options@
                        &&& smf[sid].entries@ == sm0[sid].entries@
                        &&& smf[sid].raid_id == sm0[sid].raid_id
                        &&& smf[sid].peers@.len() > 0
                    },
                    EvictOutcome::Disposed(sid) => {
                        &&& pm0.dom().contains(token)
                        &&& sid == pm0[token].strategy_id
                        &&& pmf == pm0.remove(token)
                        &&& smf == sm0.remove(sid)
                    },
                }
            }),
    {
        let ghost sm0 = strategies_map(self.strategies@);
        let ghost pm0 = peer_records_map(self.peers@);
        let pi = match self.peer_index(token) {
            Some(pi) => pi,
            None => {
                return EvictOutcome::NoPeer;
            },
        };
        proof {
            lemma_peer_records_map_index(self.peers@, pi as int);
        }
        let ghost p0 = self.peers@;
        let pslot = self.peers.swap_remove(pi);
        proof {
            lemma_peer_slots_erase(p0, pi as int);
        }
        let sid = pslot.peer.strategy_id;
        let si = match self.strategy_index(sid) {
            Some(si) => si,
            None => {
                proof {
                    assert(false);
                }
                return EvictOutcome::NoPeer;
            },
        };
        proof {
            lemma_strategies_map_index(self.strategies@, si as int);
        }
        let ghost s0 = self.strategies@;
        let mut slot = self.strategies.swap_remove(si);
        proof {
            lemma_strategy_slots_erase(s0, si as int);
            assert(peers_wf(slot.ctx)) by {
                assert(s0[si as int].ctx == slot.ctx);
            }
        }
        let ghost c0 = slot.ctx;
        let now_empty = remove_peer(&mut slot.ctx, token);
        let ghost c1 = slot.ctx;
        proof {
            c0.peers@.filter_lemma(|t: u128| t != token);
            // a remaining record's token still sits in the trimmed roster
            assert forall|i: int| 0 <= i < self.peers@.len() implies {
                let ps = #[trigger] self.peers@[i];
                ps.token != token
            } by {
                let ps = self.peers@[i];
                lemma_peer_records_map_index(self.peers@, i);
                assert(no_dup_peer_slots(self.peers@)) by {
                    lemma_peer_slots_erase(p0, pi as int);
                }
                assert(peer_records_map(self.peers@).dom().contains(ps.token));
            }
        }
        if now_empty {
            proof {
                let smf = strategies_map(self.strategies@);
                assert(smf =~= sm0.remove(sid));
                // no other record can point at the disposed session
                assert forall|i: int| 0 <= i < self.peers@.len() implies {
                    let ps = #[trigger] self.peers@[i];
                    &&& smf.dom().contains(ps.peer.strategy_id)
                    &&& smf[ps.peer.strategy_id].peers@.contains(ps.token)
                    &&& smf[ps.peer.strategy_id].raid_id == ps.peer.raid_id
                } by {
                    let ps = self.peers@[i];
                    let j = choose|j: int| 0 <= j < p0.len() && #[trigger] p0[j] == ps;
                    assert(exists|j: int| 0 <= j < p0.len() && #[trigger] p0[j] == ps) by {
                        if i < pi {
                            assert(p0[i] == ps);
                        } else {
                            if i as int == pi as int && pi < p0.len() - 1 {
                                assert(p0[p0.len() - 1] == ps);
                            } else {
                                assert(p0[i] == ps);
                            }
                        }
                    }
                    let jj = choose|jj: int| 0 <= jj < p0.len() && #[trigger] p0[jj] == ps;
                    assert(sm0.dom().contains(ps.peer.strategy_id));
                    if ps.peer.strategy_id == sid {
                        // its token would still be on the empty roster
                        assert(c0.peers@.contains(ps.token));
                        let x = choose|x: int|
                            0 <= x < c0.peers@.len() && c0.peers@[x] == ps.token;
                        assert((|t: u128| t != token)(c0.peers@[x]));
                        assert(c1.peers@.contains(ps.token));
                        assert(false);
                    }
                }
                assert(no_dup_strategy_slots(self.strategies@));
                assert forall|i: int|
                    0 <= i < self.strategies@.len() implies peers_wf(
                    (#[trigger] self.strategies@[i]).ctx,
                ) by {
                    lemma_strategies_map_index(self.strategies@, i);
                    let k = self.strategies@[i].id;
                    lemma_strategies_map_dom(old(self).strategies@);
                    let j = choose|j: int|
                        0 <= j < old(self).strategies@.len() && (#[trigger] old(
                            self,
                        ).strategies@[j]).id == k;
                    lemma_strategies_map_index(old(self).strategies@, j);
                }
            }
            EvictOutcome::Disposed(sid)
        } else {
            let ghost s1 = self.strategies@;
            self.strategies.push(slot);
            proof {
                assert(self.strategies@.drop_last() =~= s1);
                lemma_strategies_map_dom(s1);
                assert forall|k: int| 0 <= k < s1.len() implies (#[trigger] s1[k]).id != sid by {
                    if s1[k].id == sid {
                        assert(strategies_map(s1).dom().contains(sid));
                    }
                }
                assert(no_dup_strategy_slots(self.strategies@)) by {
                    assert(forall|a: int| 0 <= a < s1.len() ==> self.strategies@[a] == s1[a]);
                }
                let smf = strategies_map(self.strategies@);
                assert(smf =~= sm0.remove(sid).insert(sid, c1));
                assert(smf =~= sm0.insert(sid, c1));
                assert(smf.dom() =~= sm0.dom().insert(sid));
                assert(smf.dom() =~= sm0.dom());
                assert forall|i: int|
                    0 <= i < self.strategies@.len() implies peers_wf(
                    (#[trigger] self.strategies@[i]).ctx,
                ) by {
                    lemma_strategies_map_index(self.strategies@, i);
                    let k = self.strategies@[i].id;
                    if k != sid {
                        lemma_strategies_map_dom(old(self).strategies@);
                        let j = choose|j: int|
                            0 <= j < old(self).strategies@.len() && (#[trigger] old(
                                self,
                            ).strategies@[j]).id == k;
                        lemma_strategies_map_index(old(self).strategies@, j);
                    }
                }
                assert forall|i: int| 0 <= i < self.peers@.len() implies {
                    let ps = #[trigger] self.peers@[i];
                    &&& smf.dom().contains(ps.peer.strategy_id)
                    &&& smf[ps.peer.strategy_id].peers@.contains(ps.token)
                    &&& smf[ps.peer.strategy_id].raid_id == ps.peer.raid_id
                } by {
                    let ps = self.peers@[i];
                    assert(exists|j: int| 0 <= j < p0.len() && #[trigger] p0[j] == ps) by {
                        if i < pi {
                            assert(p0[i] == ps);
                        } else {
                            if i as int == pi as int && pi < p0.len() - 1 {
                                assert(p0[p0.len() - 1] == ps);
                            } else {
                                assert(p0[i] == ps);
                            }
                        }
                    }
                    let jj = choose|jj: int| 0 <= jj < p0.len() && #[trigger] p0[jj] == ps;
                    assert(sm0.dom().contains(ps.peer.strategy_id));
                    if ps.peer.strategy_id == sid {
                        assert(c0.peers@.contains(ps.token));
                        let x = choose|x: int|
                            0 <= x < c0.peers@.len() && c0.peers@[x] == ps.token;
                        assert((|t: u128| t != token)(c0.peers@[x]));
                        assert(c1.peers@.contains(ps.token));
                    }
                }
            }
            EvictOutcome::Kept(sid)
        }
    }
}

} // verus!
