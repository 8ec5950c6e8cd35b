//! Per-strategy session state and its mutating operations.
//!
//! Every operation resolves the caller's standing first (peer, elevation,
//! authorship), validates its payload, and only then changes the context.
//! After every operation the elevated roster stays a subset of the peer
//! roster and every keyed collection stays duplicate-free.

use vstd::prelude::*;
use vstd::pervasive::VecAdditionalExecFns;
use crate::auth::{password_accepted, verify_password};
use crate::catalog::ActionCatalog;
use crate::entries::{
    covering_ids, find_entry, group_feasible, group_fits, id_in_list, in_group,
    map_minus_player, remove_ids, remove_player_entries, lemma_submap_group_occupancy,
};
use crate::feasibility::covers;
use crate::mutation::{
    apply_entry_mutation, batch_error, entries_wf, find_player, group_params, group_params_exec,
    mutation_outcome_ok, resolve_upsert, resolved_upserts, MutationOutcome,
};
use crate::types::{
    Damage, DamageOption, Entry, Job, Player, RaidInfo, ServiceError, StrategyContext,
    MAX_COUNTDOWN, damage_options_map, damages_map, entries_map, no_dup_damage_ids,
    no_dup_damage_rows, no_dup_entry_ids, no_dup_player_ids, players_map, raid_wf,
    lemma_damage_options_map_dom, lemma_damages_map_dom, lemma_damages_map_index,
    lemma_entries_map_dom, lemma_players_map_dom, lemma_players_map_update,
};

verus! {

/// Roster invariant: duplicate-free lists, and every elevated peer is a
/// peer.
pub open spec fn peers_wf(ctx: StrategyContext) -> bool {
    &&& ctx.peers@.no_duplicates()
    &&& ctx.elevated_peers@.no_duplicates()
    &&& forall|i: int|
        0 <= i < ctx.elevated_peers@.len() ==> ctx.peers@.contains(
            #[trigger] ctx.elevated_peers@[i],
        )
}

/// Structural invariant of a session context.
pub open spec fn ctx_wf(ctx: StrategyContext) -> bool {
    &&& peers_wf(ctx)
    &&& no_dup_player_ids(ctx.players@)
    &&& no_dup_damage_ids(ctx.damage_options@)
    &&& no_dup_entry_ids(ctx.entries@)
}

/// A damage option is valid against the roster and the raid's damage table.
pub open spec fn dopt_valid(d: DamageOption, players: Seq<Player>, raid: RaidInfo) -> bool {
    &&& damages_map(raid.damages@).dom().contains(d.damage)
    &&& match d.num_shared {
        Some(n) => n <= damages_map(raid.damages@)[d.damage].max_shared,
        None => true,
    }
    &&& match d.primary_target {
        Some(t) => players_map(players).dom().contains(t),
        None => true,
    }
}

pub open spec fn damage_options_wf(
    dopts: Seq<DamageOption>,
    players: Seq<Player>,
    raid: RaidInfo,
) -> bool {
    forall|i: int| 0 <= i < dopts.len() ==> dopt_valid(#[trigger] dopts[i], players, raid)
}

/// Whether `token` currently holds write permission.
pub fn is_elevated(ctx: &StrategyContext, token: u128) -> (b: bool)
    ensures
        b == ctx.elevated_peers@.contains(token),
{
    id_in_list(&ctx.elevated_peers, token)
}

/// Register a subscribing peer: the token joins the roster, and an author
/// joins the elevated roster at once.
pub fn join_peer(ctx: &mut StrategyContext, token: u128, is_author: bool)
    requires
        peers_wf(*old(ctx)),
    ensures
        peers_wf(*final(ctx)),
        final(ctx).peers@ == if old(ctx).peers@.contains(token) {
            old(ctx).peers@
        } else {
            old(ctx).peers@.push(token)
        },
        final(ctx).elevated_peers@ == if is_author && !old(ctx).elevated_peers@.contains(token) {
            old(ctx).elevated_peers@.push(token)
        } else {
            old(ctx).elevated_peers@
        },
        final(ctx).peers@.contains(token),
        final(ctx).raid_id == old(ctx).raid_id,
        final(ctx).players@ == old(ctx).players@,
        final(ctx).damage_options@ == old(ctx).damage_options@,
        final(ctx).entries@ == old(ctx).entries@,
{
    let ghost peers0 = ctx.peers@;
    if !id_in_list(&ctx.peers, token) {
        ctx.peers.push(token);
        proof {
            assert(ctx.peers@[ctx.peers@.len() - 1] == token);
            assert(forall|i: int|
                0 <= i < peers0.len() ==> ctx.peers@[i] == #[trigger] peers0[i]);
        }
    } else {
        proof {
            let i = choose|i: int| 0 <= i < peers0.len() && peers0[i] == token;
            assert(ctx.peers@[i] == token);
        }
    }
    proof {
        assert forall|x: u128| peers0.contains(x) implies ctx.peers@.contains(x) by {
            let i = choose|i: int| 0 <= i < peers0.len() && peers0[i] == x;
            assert(ctx.peers@[i] == x);
        }
    }
    if is_author {
        if !id_in_list(&ctx.elevated_peers, token) {
            let ghost elev0 = ctx.elevated_peers@;
            ctx.elevated_peers.push(token);
            proof {
                assert forall|i: int|
                    0 <= i < ctx.elevated_peers@.len() implies ctx.peers@.contains(
                    #[trigger] ctx.elevated_peers@[i],
                ) by {
                    if i < elev0.len() {
                        assert(ctx.elevated_peers@[i] == elev0[i]);
                        assert(peers0.contains(elev0[i]));
                    } else {
                        assert(ctx.elevated_peers@[i] == token);
                    }
                }
            }
        }
    }
}

/// Drop every occurrence of `token` from the list, keeping order.
fn remove_token(v: &Vec<u128>, token: u128) -> (out: Vec<u128>)
    ensures
        out@ == v@.filter(|t: u128| t != token),
        forall|x: u128| out@.contains(x) ==> v@.contains(x),
        v@.no_duplicates() ==> out@.no_duplicates(),
{
    let n = v.len();
    let ghost pred = |t: u128| t != token;
    let mut out: Vec<u128> = Vec::new();
    proof {
        reveal(Seq::filter);
        assert(out@ =~= v@.subrange(0, 0).filter(pred));
    }
    let mut i: usize = 0;
    while i < n
        invariant
            n == v@.len(),
            i <= n,
            pred == (|t: u128| t != token),
            out@ == v@.subrange(0, i as int).filter(pred),
            forall|x: u128| out@.contains(x) ==> v@.subrange(0, i as int).contains(x),
            v@.no_duplicates() ==> out@.no_duplicates(),
        decreases n - i,
    {
        let t = v[i];
        proof {
            reveal(Seq::filter);
            assert(v@.subrange(0, i + 1).drop_last() =~= v@.subrange(0, i as int));
            assert(v@.subrange(0, i + 1).last() == v@[i as int]);
        }
        if t != token {
            proof {
                if v@.no_duplicates() {
                    assert forall|k: int| 0 <= k < out@.len() implies #[trigger] out@[k]
                        != t by {
                        assert(out@.contains(out@[k]));
                        let m = choose|m: int|
                            0 <= m < i && v@.subrange(0, i as int)[m] == out@[k];
                        assert(v@[m] == out@[k]);
                        assert(v@[m] != v@[i as int]);
                    }
                }
            }
            let ghost out0 = out@;
            out.push(t);
            proof {
                assert(out@.drop_last() =~= out0);
                assert forall|x: u128| #[trigger] out@.contains(x) implies v@.subrange(
                    0,
                    i + 1,
                ).contains(x) by {
                    let k = choose|k: int| 0 <= k < out@.len() && out@[k] == x;
                    if k < out0.len() {
                        assert(out0[k] == x);
                        assert(out0.contains(x));
                        let m = choose|m: int|
                            0 <= m < i && v@.subrange(0, i as int)[m] == x;
                        assert(v@.subrange(0, i + 1)[m] == x);
                    } else {
                        assert(v@.subrange(0, i + 1)[i as int] == x);
                    }
                }
            }
        } else {
            proof {
                assert forall|x: u128| #[trigger] out@.contains(x) implies v@.subrange(
                    0,
                    i + 1,
                ).contains(x) by {
                    let m = choose|m: int| 0 <= m < i && v@.subrange(0, i as int)[m] == x;
                    assert(v@.subrange(0, i + 1)[m] == x);
                }
            }
        }
        i = i + 1;
    }
    proof {
        assert(v@.subrange(0, n as int) =~= v@);
        assert forall|x: u128| #[trigger] out@.contains(x) implies v@.contains(x) by {
            let k = choose|k: int| 0 <= k < out@.len() && out@[k] == x;
        }
    }
    out
}

/// Evict one peer: the token leaves both rosters; reports whether the
/// session is now empty and should be disposed.
pub fn remove_peer(ctx: &mut StrategyContext, token: u128) -> (now_empty: bool)
    requires
        peers_wf(*old(ctx)),
    ensures
        peers_wf(*final(ctx)),
        final(ctx).peers@ == old(ctx).peers@.filter(|t: u128| t != token),
        final(ctx).elevated_peers@ == old(ctx).elevated_peers@.filter(|t: u128| t != token),
        !final(ctx).peers@.contains(token),
        now_empty == (final(ctx).peers@.len() == 0),
        final(ctx).raid_id == old(ctx).raid_id,
        final(ctx).players@ == old(ctx).players@,
        final(ctx).damage_options@ == old(ctx).damage_options@,
        final(ctx).entries@ == old(ctx).entries@,
{
    let new_peers = remove_token(&ctx.peers, token);
    let new_elevated = remove_token(&ctx.elevated_peers, token);
    proof {
        let pred = |t: u128| t != token;
        ctx.peers@.filter_lemma(pred);
        ctx.elevated_peers@.filter_lemma(pred);
        assert(!new_peers@.contains(token)) by {
            if new_peers@.contains(token) {
                let k = choose|k: int| 0 <= k < new_peers@.len() && new_peers@[k] == token;
            }
        }
        assert forall|i: int| 0 <= i < new_elevated@.len() implies new_peers@.contains(
            #[trigger] new_elevated@[i],
        ) by {
            let x = new_elevated@[i];
            assert(new_elevated@.contains(x));
            assert(ctx.elevated_peers@.contains(x));
            let m = choose|m: int|
                0 <= m < ctx.elevated_peers@.len() && ctx.elevated_peers@[m] == x;
            assert(ctx.peers@.contains(x));
            let pm = choose|pm: int| 0 <= pm < ctx.peers@.len() && ctx.peers@[pm] == x;
            assert(pred(ctx.peers@[pm]));
            assert(new_peers@.contains(x));
        }
    }
    ctx.peers = new_peers;
    ctx.elevated_peers = new_elevated;
    ctx.peers.len() == 0
}

/// The peers an author clears out: everyone but the caller.  Only an
/// elevated author may do this.
pub fn clear_other_sessions_targets(
    ctx: &StrategyContext,
    token: u128,
    is_author: bool,
) -> (r: Result<Vec<u128>, ServiceError>)
    ensures
        match r {
            Ok(v) => ctx.elevated_peers@.contains(token) && is_author && v@
                == ctx.peers@.filter(|t: u128| t != token),
            Err(e) => e == ServiceError::PermissionDenied && !(ctx.elevated_peers@.contains(
                token,
            ) && is_author),
        },
{
    if !is_elevated(ctx, token) {
        return Err(ServiceError::PermissionDenied);
    }
    if !is_author {
        return Err(ServiceError::PermissionDenied);
    }
    Ok(remove_token(&ctx.peers, token))
}

/// Grant write permission for a correct password on an editable strategy.
///
/// The stored hash and editability come from persistence; the bcrypt
/// verdict decides.  Nothing is broadcast.
pub fn op_elevate(
    ctx: &mut StrategyContext,
    token: u128,
    password: &str,
    is_editable: bool,
    password_hash: Option<&str>,
) -> (r: Result<(), ServiceError>)
    requires
        peers_wf(*old(ctx)),
        old(ctx).peers@.contains(token),
    ensures
        peers_wf(*final(ctx)),
        final(ctx).raid_id == old(ctx).raid_id,
        final(ctx).peers@ == old(ctx).peers@,
        final(ctx).players@ == old(ctx).players@,
        final(ctx).damage_options@ == old(ctx).damage_options@,
        final(ctx).entries@ == old(ctx).entries@,
        match r {
            Ok(()) => !old(ctx).elevated_peers@.contains(token) && is_editable
                && password_hash is Some && password_accepted(password@, password_hash->0@)
                && final(ctx).elevated_peers@ == old(ctx).elevated_peers@.push(token),
            Err(ServiceError::FailedPrecondition) => old(ctx).elevated_peers@.contains(token)
                && final(ctx).elevated_peers@ == old(ctx).elevated_peers@,
            Err(ServiceError::PermissionDenied) => !old(ctx).elevated_peers@.contains(token) && !(
            is_editable && password_hash is Some && password_accepted(
                password@,
                password_hash->0@,
            )) && final(ctx).elevated_peers@ == old(ctx).elevated_peers@,
            Err(_) => false,
        },
{
    if is_elevated(ctx, token) {
        return Err(ServiceError::FailedPrecondition);
    }
    if !is_editable {
        return Err(ServiceError::PermissionDenied);
    }
    let hash = match password_hash {
        Some(h) => h,
        None => {
            return Err(ServiceError::PermissionDenied);
        },
    };
    if !verify_password(password, hash) {
        return Err(ServiceError::PermissionDenied);
    }
    let ghost elev0 = ctx.elevated_peers@;
    ctx.elevated_peers.push(token);
    proof {
        assert forall|i: int| 0 <= i < ctx.elevated_peers@.len() implies ctx.peers@.contains(
            #[trigger] ctx.elevated_peers@[i],
        ) by {
            if i < elev0.len() {
                assert(ctx.elevated_peers@[i] == elev0[i]);
            } else {
                assert(ctx.elevated_peers@[i] == token);
            }
        }
        assert(ctx.elevated_peers@.no_duplicates()) by {
            assert forall|i: int, j: int|
                0 <= i < j < ctx.elevated_peers@.len() implies ctx.elevated_peers@[i]
                != ctx.elevated_peers@[j] by {
                if j == ctx.elevated_peers@.len() - 1 {
                    assert(ctx.elevated_peers@[i] == elev0[i]);
                    assert(elev0.contains(elev0[i]) ==> true);
                    if elev0[i] == token {
                        assert(elev0.contains(token));
                    }
                }
            }
        }
    }
    Ok(())
}

/// A note may carry at most this many bytes of text.
pub const MAX_NOTE_LENGTH: usize = 128;

/// Look a damage row up by id.
fn find_damage(v: &Vec<Damage>, id: u128) -> (r: Option<Damage>)
    requires
        no_dup_damage_rows(v@),
    ensures
        match r {
            Some(d) => damages_map(v@).dom().contains(id) && damages_map(v@)[id] == d && d.id
                == id,
            None => !damages_map(v@).dom().contains(id),
        },
{
    proof {
        lemma_damages_map_dom(v@);
    }
    let n = v.len();
    let mut i: usize = 0;
    while i < n
        invariant
            n == v@.len(),
            i <= n,
            no_dup_damage_rows(v@),
            forall|k: int| 0 <= k < i ==> (#[trigger] v@[k]).id != id,
        decreases n - i,
    {
        if v[i].id == id {
            proof {
                lemma_damages_map_index(v@, i as int);
            }
            return Some(v[i]);
        }
        i = i + 1;
    }
    proof {
        lemma_damages_map_dom(v@);
    }
    None
}

/// Replace the damage option for one damage, appending the new row.
///
/// This is last-writer-wins per damage: the map afterwards holds the new
/// row under its damage id and is otherwise unchanged.
pub fn op_upsert_damage_option(
    ctx: &mut StrategyContext,
    raid: &RaidInfo,
    token: u128,
    dopt: DamageOption,
) -> (r: Result<(), ServiceError>)
    requires
        ctx_wf(*old(ctx)),
        raid_wf(*raid),
    ensures
        ctx_wf(*final(ctx)),
        final(ctx).raid_id == old(ctx).raid_id,
        final(ctx).peers@ == old(ctx).peers@,
        final(ctx).elevated_peers@ == old(ctx).elevated_peers@,
        final(ctx).players@ == old(ctx).players@,
        final(ctx).entries@ == old(ctx).entries@,
        match r {
            Ok(()) => old(ctx).elevated_peers@.contains(token) && dopt_valid(
                dopt,
                old(ctx).players@,
                *raid,
            ) && damage_options_map(final(ctx).damage_options@) == damage_options_map(
                old(ctx).damage_options@,
            ).insert(dopt.damage, dopt) && (damage_options_wf(
                old(ctx).damage_options@,
                old(ctx).players@,
                *raid,
            ) ==> damage_options_wf(final(ctx).damage_options@, old(ctx).players@, *raid)),
            Err(ServiceError::PermissionDenied) => !old(ctx).elevated_peers@.contains(token)
                && final(ctx).damage_options@ == old(ctx).damage_options@,
            Err(ServiceError::FailedPrecondition) => old(ctx).elevated_peers@.contains(token)
                && !dopt_valid(dopt, old(ctx).players@, *raid) && final(ctx).damage_options@
                == old(ctx).damage_options@,
            Err(_) => false,
        },
{
    if !is_elevated(ctx, token) {
        return Err(ServiceError::PermissionDenied);
    }
    let damage = match find_damage(&raid.damages, dopt.damage) {
        Some(d) => d,
        None => {
            return Err(ServiceError::FailedPrecondition);
        },
    };
    match dopt.num_shared {
        Some(n) => {
            if n > damage.max_shared {
                return Err(ServiceError::FailedPrecondition);
            }
        },
        None => {},
    }
    match dopt.primary_target {
        Some(t) => {
            if find_player(&ctx.players, t).is_none() {
                return Err(ServiceError::FailedPrecondition);
            }
        },
        None => {},
    }
    let n = ctx.damage_options.len();
    let mut out: Vec<DamageOption> = Vec::new();
    let ghost dm0 = damage_options_map(ctx.damage_options@);
    proof {
        lemma_damage_options_map_dom(ctx.damage_options@);
        assert(damage_options_map(out@) =~= Map::new(
            |k: u128| (exists|x: int|
                0 <= x < 0 && (#[trigger] ctx.damage_options@[x]).damage == k) && k
                != dopt.damage,
            |k: u128| dm0[k],
        ));
    }
    let mut i: usize = 0;
    while i < n
        invariant
            n == ctx.damage_options@.len(),
            i <= n,
            no_dup_damage_ids(ctx.damage_options@),
            dm0 == damage_options_map(ctx.damage_options@),
            no_dup_damage_ids(out@),
            forall|k: int|
                0 <= k < out@.len() ==> ctx.damage_options@.contains(#[trigger] out@[k])
                    && out@[k].damage != dopt.damage,
            damage_options_map(out@) == Map::new(
                |k: u128| (exists|x: int|
                    0 <= x < i && (#[trigger] ctx.damage_options@[x]).damage == k) && k
                    != dopt.damage,
                |k: u128| dm0[k],
            ),
        decreases n - i,
    {
        let d = ctx.damage_options[i];
        proof {
            crate::types::lemma_damage_options_map_index(ctx.damage_options@, i as int);
            assert(dm0[d.damage] == d);
        }
        if d.damage != dopt.damage {
            proof {
                assert forall|k: int| 0 <= k < out@.len() implies (#[trigger] out@[k]).damage
                    != d.damage by {
                    crate::types::lemma_damage_options_map_index(out@, k);
                    assert(damage_options_map(out@).dom().contains(out@[k].damage));
                    if out@[k].damage == d.damage {
                        let x = choose|x: int|
                            0 <= x < i && (#[trigger] ctx.damage_options@[x]).damage
                                == d.damage;
                        assert(ctx.damage_options@[x].damage == ctx.damage_options@[
                            i as int].damage);
                    }
                }
                assert(ctx.damage_options@.contains(d)) by {
                    assert(ctx.damage_options@[i as int] == d);
                }
            }
            let ghost out0 = out@;
            out.push(d);
            proof {
                assert(out@.drop_last() =~= out0);
                assert(out@.last() == d);
                assert(forall|k: int, l: int|
                    0 <= k < l < out@.len() ==> out@[k].damage != out@[l].damage);
                assert(damage_options_map(out@) =~= Map::new(
                    |k: u128| (exists|x: int|
                        0 <= x < i + 1 && (#[trigger] ctx.damage_options@[x]).damage == k) && k
                        != dopt.damage,
                    |k: u128| dm0[k],
                ));
            }
        } else {
            proof {
                assert(damage_options_map(out@) =~= Map::new(
                    |k: u128| (exists|x: int|
                        0 <= x < i + 1 && (#[trigger] ctx.damage_options@[x]).damage == k) && k
                        != dopt.damage,
                    |k: u128| dm0[k],
                ));
            }
        }
        i = i + 1;
    }
    proof {
        lemma_damage_options_map_dom(ctx.damage_options@);
        assert forall|k: int| 0 <= k < out@.len() implies (#[trigger] out@[k]).damage
            != dopt.damage by {}
    }
    let ghost outpre = out@;
    out.push(dopt);
    proof {
        assert(out@.drop_last() =~= outpre);
        assert(out@.last() == dopt);
        assert(forall|k: int, l: int|
            0 <= k < l < out@.len() ==> out@[k].damage != out@[l].damage);
        assert(damage_options_map(out@) =~= dm0.insert(dopt.damage, dopt));
    }
    ctx.damage_options = out;
    Ok(())
}

/// Two successive upserts for the same damage leave the state the last one
/// alone would produce: per-damage configuration is last-writer-wins.
pub proof fn lemma_damage_option_last_writer(
    m: Map<u128, DamageOption>,
    d1: DamageOption,
    d2: DamageOption,
)
    requires
        d1.damage == d2.damage,
    ensures
        m.insert(d1.damage, d1).insert(d2.damage, d2) == m.insert(d2.damage, d2),
{
    assert(m.insert(d1.damage, d1).insert(d2.damage, d2) =~= m.insert(d2.damage, d2));
}

/// Find the roster slot of a player.
fn find_player_index(v: &Vec<Player>, id: u128) -> (r: Option<usize>)
    requires
        no_dup_player_ids(v@),
    ensures
        match r {
            Some(i) => i < v@.len() && v@[i as int].id == id,
            None => !players_map(v@).dom().contains(id),
        },
{
    let n = v.len();
    let mut i: usize = 0;
    while i < n
        invariant
            n == v@.len(),
            i <= n,
            forall|k: int| 0 <= k < i ==> (#[trigger] v@[k]).id != id,
        decreases n - i,
    {
        if v[i].id == id {
            return Some(i);
        }
        i = i + 1;
    }
    proof {
        lemma_players_map_dom(v@);
    }
    None
}

/// Set a player's job and drop every timeline entry of that player:
/// cooldown data differs across jobs, so the old entries are meaningless.
pub fn op_update_player_job(
    ctx: &mut StrategyContext,
    token: u128,
    id: u128,
    job: Option<Job>,
) -> (r: Result<(), ServiceError>)
    requires
        ctx_wf(*old(ctx)),
    ensures
        ctx_wf(*final(ctx)),
        final(ctx).raid_id == old(ctx).raid_id,
        final(ctx).peers@ == old(ctx).peers@,
        final(ctx).elevated_peers@ == old(ctx).elevated_peers@,
        final(ctx).damage_options@ == old(ctx).damage_options@,
        match r {
            Ok(()) => old(ctx).elevated_peers@.contains(token) && players_map(
                old(ctx).players@,
            ).dom().contains(id) && final(ctx).players@.len() == old(ctx).players@.len() && (
            forall|k: int|
                0 <= k < old(ctx).players@.len() ==> final(ctx).players@[k] == (if (
                #[trigger] old(ctx).players@[k]).id == id {
                    Player { id, job, order: old(ctx).players@[k].order }
                } else {
                    old(ctx).players@[k]
                })) && players_map(final(ctx).players@) == players_map(
                old(ctx).players@,
            ).insert(id, Player { id, job, order: players_map(old(ctx).players@)[id].order })
                && entries_map(final(ctx).entries@) == map_minus_player(
                entries_map(old(ctx).entries@),
                id,
            ) && (forall|k: int|
                0 <= k < final(ctx).entries@.len()
                    ==> (#[trigger] final(ctx).entries@[k]).player != id),
            Err(ServiceError::PermissionDenied) => !old(ctx).elevated_peers@.contains(token)
                && final(ctx).players@ == old(ctx).players@
                && final(ctx).entries@ == old(ctx).entries@,
            Err(ServiceError::FailedPrecondition) => old(ctx).elevated_peers@.contains(token)
                && !players_map(old(ctx).players@).dom().contains(id) && final(ctx).players@
                == old(ctx).players@ && final(ctx).entries@ == old(ctx).entries@,
            Err(_) => false,
        },
        forall|cat: ActionCatalog, raid: RaidInfo|
            entries_wf(entries_map(old(ctx).entries@), old(ctx).players@, cat, raid)
                ==> #[trigger] entries_wf(
                entries_map(final(ctx).entries@),
                final(ctx).players@,
                cat,
                raid,
            ),
{
    if !is_elevated(ctx, token) {
        return Err(ServiceError::PermissionDenied);
    }
    let idx = match find_player_index(&ctx.players, id) {
        Some(i) => i,
        None => {
            return Err(ServiceError::FailedPrecondition);
        },
    };
    let order = ctx.players[idx].order;
    let updated = Player { id, job, order };
    proof {
        crate::types::lemma_players_map_index(ctx.players@, idx as int);
        lemma_players_map_update(ctx.players@, idx as int, updated);
    }
    ctx.players.set(idx, updated);
    let new_entries = remove_player_entries(&ctx.entries, id);
    ctx.entries = new_entries;
    proof {
        assert forall|k: int|
            0 <= k < old(ctx).players@.len() implies ctx.players@[k] == (if (#[trigger] old(
            ctx,
        ).players@[k]).id == id {
            Player { id, job, order: old(ctx).players@[k].order }
        } else {
            old(ctx).players@[k]
        }) by {
            if k != idx && old(ctx).players@[k].id == id {
                assert(old(ctx).players@[k].id == old(ctx).players@[idx as int].id);
            }
        }
        assert forall|cat: ActionCatalog, raid: RaidInfo|
            entries_wf(
                entries_map(old(ctx).entries@),
                old(ctx).players@,
                cat,
                raid,
            ) implies #[trigger] entries_wf(
            entries_map(ctx.entries@),
            ctx.players@,
            cat,
            raid,
        ) by {
            lemma_entries_map_dom(old(ctx).entries@);
            assert(forall|p: u128|
                p != id ==> (#[trigger] players_map(ctx.players@).dom().contains(p)
                    == players_map(old(ctx).players@).dom().contains(p) && (players_map(
                    old(ctx).players@,
                ).dom().contains(p) ==> players_map(ctx.players@)[p] == players_map(
                    old(ctx).players@,
                )[p])));
            lemma_job_update_entries_wf(
                entries_map(old(ctx).entries@),
                old(ctx).players@,
                ctx.players@,
                cat,
                raid,
                id,
            );
        }
    }
    Ok(())
}

/// Delete one entry by id.
pub fn op_delete_entry(ctx: &mut StrategyContext, token: u128, id: u128) -> (r: Result<
    (),
    ServiceError,
>)
    requires
        ctx_wf(*old(ctx)),
    ensures
        ctx_wf(*final(ctx)),
        final(ctx).raid_id == old(ctx).raid_id,
        final(ctx).peers@ == old(ctx).peers@,
        final(ctx).elevated_peers@ == old(ctx).elevated_peers@,
        final(ctx).players@ == old(ctx).players@,
        final(ctx).damage_options@ == old(ctx).damage_options@,
        match r {
            Ok(()) => old(ctx).elevated_peers@.contains(token) && entries_map(
                old(ctx).entries@,
            ).dom().contains(id) && entries_map(final(ctx).entries@) == entries_map(
                old(ctx).entries@,
            ).remove(id),
            Err(ServiceError::PermissionDenied) => !old(ctx).elevated_peers@.contains(token)
                && final(ctx).entries@ == old(ctx).entries@,
            Err(ServiceError::FailedPrecondition) => old(ctx).elevated_peers@.contains(token)
                && !entries_map(old(ctx).entries@).dom().contains(id) && final(ctx).entries@
                == old(ctx).entries@,
            Err(_) => false,
        },
        forall|cat: ActionCatalog, raid: RaidInfo|
            entries_wf(entries_map(old(ctx).entries@), old(ctx).players@, cat, raid)
                ==> #[trigger] entries_wf(
                entries_map(final(ctx).entries@),
                final(ctx).players@,
                cat,
                raid,
            ),
{
    if !is_elevated(ctx, token) {
        return Err(ServiceError::PermissionDenied);
    }
    if find_entry(&ctx.entries, id).is_none() {
        return Err(ServiceError::FailedPrecondition);
    }
    let mut dels: Vec<u128> = Vec::new();
    dels.push(id);
    let new_entries = remove_ids(&ctx.entries, &dels);
    proof {
        assert(dels@.len() == 1 && dels@[0] == id);
        assert forall|k: u128| #[trigger] dels@.contains(k) <==> k == id by {
            if dels@.contains(k) {
                let x = choose|x: int| 0 <= x < dels@.len() && dels@[x] == k;
            }
            if k == id {
                assert(dels@[0] == k);
            }
        }
        assert(entries_map(new_entries@) =~= entries_map(ctx.entries@).remove(id));
    }
    ctx.entries = new_entries;
    proof {
        assert forall|cat: ActionCatalog, raid: RaidInfo|
            entries_wf(
                entries_map(old(ctx).entries@),
                old(ctx).players@,
                cat,
                raid,
            ) implies #[trigger] entries_wf(
            entries_map(ctx.entries@),
            ctx.players@,
            cat,
            raid,
        ) by {
            lemma_entries_map_dom(old(ctx).entries@);
            lemma_submap_entries_wf(
                entries_map(old(ctx).entries@),
                entries_map(ctx.entries@),
                ctx.players@,
                cat,
                raid,
            );
        }
    }
    Ok(())
}

/// Every group of a sub-collection stays within its bound.
pub proof fn lemma_submap_entries_wf(
    m2: Map<u128, Entry>,
    m1: Map<u128, Entry>,
    players: Seq<Player>,
    cat: ActionCatalog,
    raid: RaidInfo,
)
    requires
        entries_wf(m2, players, cat, raid),
        m1.submap_of(m2),
        m2.dom().finite(),
    ensures
        entries_wf(m1, players, cat, raid),
{
    assert forall|id: u128| #[trigger] m1.dom().contains(id) implies {
        &&& m1[id].id == id
        &&& -MAX_COUNTDOWN <= m1[id].use_at <= raid.duration
        &&& group_params(players, cat, m1[id].player, m1[id].action) is Some
        &&& group_feasible(
            m1,
            m1[id].player,
            m1[id].action,
            group_params(players, cat, m1[id].player, m1[id].action)->0.cooldown as int,
            group_params(players, cat, m1[id].player, m1[id].action)->0.charges as int,
        )
    } by {
        assert(m1.dom().contains(id));
        assert(m1.submap_of(m2));
        assert(m2.dom().contains(id));
        assert(m1[id] == m2[id]);
        let e = m1[id];
        let info = group_params(players, cat, e.player, e.action)->0;
        let cd = info.cooldown as int;
        let ch = info.charges as int;
        assert forall|t: int|
            crate::entries::group_occupancy(m1, e.player, e.action, cd, t) <= ch by {
            m2.dom().lemma_len_filter(
                |x: u128| in_group(m2[x], e.player, e.action) && covers(
                    m2[x].use_at as int,
                    cd,
                    t,
                ),
            );
            lemma_submap_group_occupancy(m1, m2, e.player, e.action, cd, t);
            assert(crate::entries::group_occupancy(m2, e.player, e.action, cd, t) <= ch);
        }
    }
}

/// Dropping one player's entries keeps the rest well-formed, also under the
/// roster with that player's job changed.
pub proof fn lemma_job_update_entries_wf(
    m: Map<u128, Entry>,
    players: Seq<Player>,
    players2: Seq<Player>,
    cat: ActionCatalog,
    raid: RaidInfo,
    pid: u128,
)
    requires
        entries_wf(m, players, cat, raid),
        m.dom().finite(),
        forall|p: u128|
            p != pid ==> (#[trigger] players_map(players2).dom().contains(p)
                == players_map(players).dom().contains(p) && (players_map(
                players,
            ).dom().contains(p) ==> players_map(players2)[p] == players_map(players)[p])),
    ensures
        entries_wf(map_minus_player(m, pid), players2, cat, raid),
{
    let m1 = map_minus_player(m, pid);
    assert(m1.submap_of(m));
    lemma_submap_entries_wf(m, m1, players, cat, raid);
    assert forall|id: u128| #[trigger] m1.dom().contains(id) implies {
        &&& m1[id].id == id
        &&& -MAX_COUNTDOWN <= m1[id].use_at <= raid.duration
        &&& group_params(players2, cat, m1[id].player, m1[id].action) is Some
        &&& group_feasible(
            m1,
            m1[id].player,
            m1[id].action,
            group_params(players2, cat, m1[id].player, m1[id].action)->0.cooldown as int,
            group_params(players2, cat, m1[id].player, m1[id].action)->0.charges as int,
        )
    } by {
        let e = m1[id];
        assert(e.player != pid);
        assert(players_map(players2).dom().contains(e.player) == players_map(
            players,
        ).dom().contains(e.player));
        if players_map(players).dom().contains(e.player) {
            assert(players_map(players2)[e.player] == players_map(players)[e.player]);
        }
        assert(group_params(players2, cat, e.player, e.action) == group_params(
            players,
            cat,
            e.player,
            e.action,
        ));
    }
}

/// Replace the entry carrying `e.id`, or append `e` when the id is new.
pub fn upsert_entry_vec(v: &Vec<Entry>, e: Entry) -> (out: Vec<Entry>)
    requires
        no_dup_entry_ids(v@),
    ensures
        no_dup_entry_ids(out@),
        entries_map(out@) == entries_map(v@).insert(e.id, e),
{
    let n = v.len();
    let mut out: Vec<Entry> = Vec::new();
    let mut seen = false;
    proof {
        assert(v@.subrange(0, 0) =~= Seq::<Entry>::empty());
        assert(entries_map(out@) =~= entries_map(v@.subrange(0, 0)));
        lemma_entries_map_dom(v@);
    }
    let mut i: usize = 0;
    while i < n
        invariant
            n == v@.len(),
            i <= n,
            no_dup_entry_ids(v@),
            no_dup_entry_ids(out@),
            seen == entries_map(v@.subrange(0, i as int)).dom().contains(e.id),
            entries_map(out@) == if seen {
                entries_map(v@.subrange(0, i as int)).insert(e.id, e)
            } else {
                entries_map(v@.subrange(0, i as int))
            },
        decreases n - i,
    {
        let cur = v[i];
        let ghost prefix = v@.subrange(0, i as int);
        proof {
            assert(v@.subrange(0, i + 1).drop_last() =~= prefix);
            assert(v@.subrange(0, i + 1).last() == v@[i as int]);
            assert(no_dup_entry_ids(prefix)) by {
                assert(forall|k: int| 0 <= k < prefix.len() ==> prefix[k] == v@[k]);
            }
            lemma_entries_map_dom(prefix);
            assert(!entries_map(prefix).dom().contains(cur.id)) by {
                if entries_map(prefix).dom().contains(cur.id) {
                    let k = choose|k: int|
                        0 <= k < prefix.len() && (#[trigger] prefix[k]).id == cur.id;
                    assert(v@[k].id == v@[i as int].id);
                }
            }
            lemma_entries_map_dom(out@);
            assert forall|k: int| 0 <= k < out@.len() implies (#[trigger] out@[k]).id != cur.id
                || out@[k].id == e.id by {
                assert(entries_map(out@).dom().contains(out@[k].id));
            }
        }
        let ghost out0 = out@;
        if cur.id == e.id {
            proof {
                assert forall|k: int| 0 <= k < out@.len() implies (#[trigger] out@[k]).id
                    != e.id by {
                    assert(entries_map(out@).dom().contains(out@[k].id));
                }
            }
            out.push(e);
            seen = true;
            proof {
                assert(out@.drop_last() =~= out0);
                assert(out@.last() == e);
                assert(forall|k: int, l: int|
                    0 <= k < l < out@.len() ==> out@[k].id != out@[l].id);
                assert(entries_map(out@) =~= entries_map(v@.subrange(0, i + 1)).insert(
                    e.id,
                    e,
                ));
                assert(entries_map(v@.subrange(0, i + 1)).dom().contains(e.id)) by {
                    assert(v@.subrange(0, i + 1)[i as int].id == e.id);
                    lemma_entries_map_dom(v@.subrange(0, i + 1));
                }
            }
        } else {
            proof {
                assert forall|k: int| 0 <= k < out@.len() implies (#[trigger] out@[k]).id
                    != cur.id by {
                    assert(entries_map(out@).dom().contains(out@[k].id));
                    if out@[k].id == cur.id {
                        if seen {
                            if out@[k].id != e.id {
                                assert(entries_map(prefix).dom().contains(cur.id));
                            }
                        } else {
                            assert(entries_map(prefix).dom().contains(cur.id));
                        }
                    }
                }
            }
            out.push(cur);
            proof {
                assert(out@.drop_last() =~= out0);
                assert(out@.last() == cur);
                assert(forall|k: int, l: int|
                    0 <= k < l < out@.len() ==> out@[k].id != out@[l].id);
                if seen {
                    assert(entries_map(out@) =~= entries_map(v@.subrange(0, i + 1)).insert(
                        e.id,
                        e,
                    ));
                } else {
                    assert(entries_map(out@) =~= entries_map(v@.subrange(0, i + 1)));
                }
                lemma_entries_map_dom(v@.subrange(0, i + 1));
                assert(entries_map(v@.subrange(0, i + 1)).dom().contains(e.id)
                    == entries_map(prefix).dom().contains(e.id)) by {
                    if entries_map(v@.subrange(0, i + 1)).dom().contains(e.id) {
                        let k = choose|k: int|
                            0 <= k < v@.subrange(0, i + 1).len() && (#[trigger] v@.subrange(
                                0,
                                i + 1,
                            )[k]).id == e.id;
                        assert(k < i + 1);
                        if k < i {
                            assert(prefix[k].id == e.id);
                            lemma_entries_map_dom(prefix);
                        }
                    } else {
                        if entries_map(prefix).dom().contains(e.id) {
                            let k = choose|k: int|
                                0 <= k < prefix.len() && (#[trigger] prefix[k]).id == e.id;
                            assert(v@.subrange(0, i + 1)[k].id == e.id);
                        }
                    }
                }
            }
        }
        i = i + 1;
    }
    proof {
        assert(v@.subrange(0, n as int) =~= v@);
    }
    if !seen {
        let ghost out0 = out@;
        proof {
            lemma_entries_map_dom(out@);
            assert forall|k: int| 0 <= k < out@.len() implies (#[trigger] out@[k]).id
                != e.id by {
                assert(entries_map(out@).dom().contains(out@[k].id));
            }
        }
        out.push(e);
        proof {
            assert(out@.drop_last() =~= out0);
            assert(out@.last() == e);
            assert(forall|k: int, l: int|
                0 <= k < l < out@.len() ==> out@[k].id != out@[l].id);
        }
    }
    out
}


/// An applied single upsert keeps every group within its bound, provided
/// the action grants at least one charge: the stricter overlap-free check
/// implies the charge bound.
pub proof fn lemma_single_upsert_preserves_wf(
    pre: Map<u128, Entry>,
    players: Seq<Player>,
    cat: ActionCatalog,
    raid: RaidInfo,
    entry: Entry,
)
    requires
        entries_wf(pre, players, cat, raid),
        pre.dom().finite(),
        ({
            let ru = resolve_upsert(pre, entry);
            let params = group_params(players, cat, ru.player, ru.action);
            &&& -MAX_COUNTDOWN <= ru.use_at <= raid.duration
            &&& params is Some
            &&& params->0.charges >= 1
            &&& group_feasible(
                pre.insert(ru.id, ru),
                ru.player,
                ru.action,
                params->0.cooldown as int,
                1,
            )
        }),
    ensures
        entries_wf(pre.insert(resolve_upsert(pre, entry).id, resolve_upsert(pre, entry)), players, cat, raid),
{
    let ru = resolve_upsert(pre, entry);
    let m = pre.insert(ru.id, ru);
    let ginfo = group_params(players, cat, ru.player, ru.action)->0;
    assert forall|id: u128| #[trigger] m.dom().contains(id) implies {
        &&& m[id].id == id
        &&& -MAX_COUNTDOWN <= m[id].use_at <= raid.duration
        &&& group_params(players, cat, m[id].player, m[id].action) is Some
        &&& group_feasible(
            m,
            m[id].player,
            m[id].action,
            group_params(players, cat, m[id].player, m[id].action)->0.cooldown as int,
            group_params(players, cat, m[id].player, m[id].action)->0.charges as int,
        )
    } by {
        let e = m[id];
        if id == ru.id {
            assert(e == ru);
            if pre.dom().contains(ru.id) {
                assert(ru.id == pre[ru.id].id);
            }
        } else {
            assert(pre.dom().contains(id) && e == pre[id]);
        }
        let info = group_params(players, cat, e.player, e.action)->0;
        let cd = info.cooldown as int;
        let ch = info.charges as int;
        assert forall|t: int|
            crate::entries::group_occupancy(m, e.player, e.action, cd, t) <= ch by {
            if e.player == ru.player && e.action == ru.action {
                // the group that was re-checked: one live use at most
                assert(crate::entries::group_occupancy(m, ru.player, ru.action, cd, t) <= 1);
            } else {
                // other groups are untouched: the inserted id cannot sit in them
                assert(covering_ids(m, e.player, e.action, cd, t) =~= covering_ids(
                    pre,
                    e.player,
                    e.action,
                    cd,
                    t,
                )) by {
                    assert forall|x: u128|
                        #[trigger] covering_ids(m, e.player, e.action, cd, t).contains(
                            x,
                        ) implies covering_ids(pre, e.player, e.action, cd, t).contains(x) by {
                        if x == ru.id {
                            assert(in_group(ru, e.player, e.action));
                            assert(false);
                        }
                    }
                    assert forall|x: u128|
                        #[trigger] covering_ids(pre, e.player, e.action, cd, t).contains(
                            x,
                        ) implies covering_ids(m, e.player, e.action, cd, t).contains(x) by {
                        if x == ru.id {
                            assert(pre[ru.id].player == ru.player && pre[ru.id].action
                                == ru.action);
                            assert(false);
                        }
                    }
                }
                assert(crate::entries::group_occupancy(pre, e.player, e.action, cd, t) <= ch);
            }
        }
    }
}

/// Verdict of a single-entry upsert.
#[derive(Clone, Copy, Debug, PartialEq, Eq)]
pub enum SingleUpsert {
    /// The change went through and is broadcast as an upsert.
    Applied,
    /// Rejected; the caller is sent the authoritative entry back.
    RejectedExisting(Entry),
    /// Rejected and the id is unknown; the caller is sent a delete.
    RejectedNew(u128),
}

/// Upsert a single timeline entry, rejecting any overlap of the cooldown
/// windows inside the entry's `(player, action)` group.
///
/// Unlike the batched mutation this legacy check does not use the action's
/// charge count: any two overlapping windows collide.  An upsert of an
/// existing id overwrites only `use_at`.
pub fn op_upsert_entry(
    ctx: &mut StrategyContext,
    cat: &ActionCatalog,
    raid: &RaidInfo,
    token: u128,
    entry: Entry,
) -> (r: Result<SingleUpsert, ServiceError>)
    requires
        ctx_wf(*old(ctx)),
        cat.wf(),
    ensures
        ctx_wf(*final(ctx)),
        final(ctx).raid_id == old(ctx).raid_id,
        final(ctx).peers@ == old(ctx).peers@,
        final(ctx).elevated_peers@ == old(ctx).elevated_peers@,
        final(ctx).players@ == old(ctx).players@,
        final(ctx).damage_options@ == old(ctx).damage_options@,
        ({
            let pre = entries_map(old(ctx).entries@);
            let ru = resolve_upsert(pre, entry);
            let params = group_params(old(ctx).players@, *cat, ru.player, ru.action);
            let elev = old(ctx).elevated_peers@.contains(token);
            let fits = group_feasible(
                pre.insert(ru.id, ru),
                ru.player,
                ru.action,
                params->0.cooldown as int,
                1,
            );
            match r {
                Err(ServiceError::PermissionDenied) => !elev && final(ctx).entries@ == old(
                    ctx,
                ).entries@,
                Err(ServiceError::InvalidArgument) => elev && !(-MAX_COUNTDOWN <= entry.use_at
                    <= raid.duration) && final(ctx).entries@ == old(ctx).entries@,
                Err(ServiceError::FailedPrecondition) => elev && -MAX_COUNTDOWN <= entry.use_at
                    <= raid.duration && params is None && final(ctx).entries@ == old(
                    ctx,
                ).entries@,
                Ok(v) => elev && -MAX_COUNTDOWN <= entry.use_at <= raid.duration
                    && params is Some && match v {
                    SingleUpsert::Applied => fits && entries_map(final(ctx).entries@)
                        == pre.insert(ru.id, ru),
                    SingleUpsert::RejectedExisting(orig) => !fits && pre.dom().contains(
                        entry.id,
                    ) && orig == pre[entry.id] && final(ctx).entries@ == old(ctx).entries@,
                    SingleUpsert::RejectedNew(rid) => !fits && !pre.dom().contains(entry.id)
                        && rid == entry.id && final(ctx).entries@ == old(ctx).entries@,
                },
                Err(_) => false,
            }
        }),
        ({
            let pre = entries_map(old(ctx).entries@);
            let params = group_params(
                old(ctx).players@,
                *cat,
                resolve_upsert(pre, entry).player,
                resolve_upsert(pre, entry).action,
            );
            (entries_wf(pre, old(ctx).players@, *cat, *raid) && (r matches Ok(
                SingleUpsert::Applied,
            )) && params->0.charges >= 1) ==> entries_wf(
                entries_map(final(ctx).entries@),
                final(ctx).players@,
                *cat,
                *raid,
            )
        }),
{
    if !is_elevated(ctx, token) {
        return Err(ServiceError::PermissionDenied);
    }
    if entry.use_at < -MAX_COUNTDOWN || entry.use_at > raid.duration {
        return Err(ServiceError::InvalidArgument);
    }
    let original = find_entry(&ctx.entries, entry.id);
    let ru = match original {
        Some(cur) => Entry {
            id: entry.id,
            player: cur.player,
            action: cur.action,
            use_at: entry.use_at,
        },
        None => entry,
    };
    proof {
        assert(ru == resolve_upsert(entries_map(ctx.entries@), entry));
    }
    let info = match group_params_exec(&ctx.players, cat, ru.player, ru.action) {
        Some(x) => x,
        None => {
            return Err(ServiceError::FailedPrecondition);
        },
    };
    let after = upsert_entry_vec(&ctx.entries, ru);
    let ok = group_fits(&after, ru.player, ru.action, info.cooldown, 1);
    if ok {
        proof {
            if entries_wf(
                entries_map(old(ctx).entries@),
                old(ctx).players@,
                *cat,
                *raid,
            ) && info.charges >= 1 {
                lemma_entries_map_dom(old(ctx).entries@);
                lemma_single_upsert_preserves_wf(
                    entries_map(old(ctx).entries@),
                    old(ctx).players@,
                    *cat,
                    *raid,
                    entry,
                );
            }
        }
        ctx.entries = after;
        Ok(SingleUpsert::Applied)
    } else {
        match original {
            Some(cur) => Ok(SingleUpsert::RejectedExisting(cur)),
            None => Ok(SingleUpsert::RejectedNew(entry.id)),
        }
    }
}

pub fn copy_entries(v: &Vec<Entry>) -> (out: Vec<Entry>)
    ensures
        out@ == v@,
{
    let n = v.len();
    let mut out: Vec<Entry> = Vec::new();
    let mut i: usize = 0;
    while i < n
        invariant
            n == v@.len(),
            i <= n,
            out@ == v@.subrange(0, i as int),
        decreases n - i,
    {
        let ghost out0 = out@;
        out.push(v[i]);
        proof {
            assert(out@ =~= v@.subrange(0, i + 1));
        }
        i = i + 1;
    }
    proof {
        assert(v@.subrange(0, n as int) =~= v@);
    }
    out
}

/// Apply a batched entry mutation under this session.
///
/// The caller must be elevated; the batch is then validated and applied as
/// `apply_entry_mutation` describes, and the context takes the new entry
/// list.  The outcome carries what to broadcast and what to send back.
pub fn op_mutate_entries(
    ctx: &mut StrategyContext,
    cat: &ActionCatalog,
    raid: &RaidInfo,
    token: u128,
    upserts: &Vec<Entry>,
    deletes: &Vec<u128>,
) -> (r: Result<MutationOutcome, ServiceError>)
    requires
        ctx_wf(*old(ctx)),
        cat.wf(),
    ensures
        ctx_wf(*final(ctx)),
        final(ctx).raid_id == old(ctx).raid_id,
        final(ctx).peers@ == old(ctx).peers@,
        final(ctx).elevated_peers@ == old(ctx).elevated_peers@,
        final(ctx).players@ == old(ctx).players@,
        final(ctx).damage_options@ == old(ctx).damage_options@,
        ({
            let pre = entries_map(old(ctx).entries@);
            let rs = resolved_upserts(pre, upserts@);
            let elev = old(ctx).elevated_peers@.contains(token);
            match r {
                Err(ServiceError::PermissionDenied) => !elev && final(ctx).entries@ == old(
                    ctx,
                ).entries@,
                Err(e) => elev && batch_error(
                    pre,
                    old(ctx).players@,
                    *cat,
                    *raid,
                    upserts@,
                    deletes@,
                ) == Some(e) && final(ctx).entries@ == old(ctx).entries@,
                Ok(out) => elev && batch_error(
                    pre,
                    old(ctx).players@,
                    *cat,
                    *raid,
                    upserts@,
                    deletes@,
                ) is None && mutation_outcome_ok(pre, rs, deletes@, old(ctx).players@, *cat, out)
                    && final(ctx).entries@ == out.entries_after@,
            }
        }),
        (entries_wf(entries_map(old(ctx).entries@), old(ctx).players@, *cat, *raid) && r is Ok)
            ==> entries_wf(
            entries_map(final(ctx).entries@),
            final(ctx).players@,
            *cat,
            *raid,
        ),
{
    if !is_elevated(ctx, token) {
        return Err(ServiceError::PermissionDenied);
    }
    match apply_entry_mutation(&ctx.players, cat, raid, &ctx.entries, upserts, deletes) {
        Ok(out) => {
            let copied = copy_entries(&out.entries_after);
            ctx.entries = copied;
            proof {
                if entries_wf(
                    entries_map(old(ctx).entries@),
                    old(ctx).players@,
                    *cat,
                    *raid,
                ) {
                    lemma_entries_map_dom(old(ctx).entries@);
                    crate::mutation::lemma_mutation_preserves_wf(
                        entries_map(old(ctx).entries@),
                        old(ctx).players@,
                        *cat,
                        *raid,
                        upserts@,
                        deletes@,
                    );
                }
            }
            Ok(out)
        },
        Err(e) => {
            proof {
                crate::mutation::lemma_batch_error_kind(
                    entries_map(old(ctx).entries@),
                    old(ctx).players@,
                    *cat,
                    *raid,
                    upserts@,
                    deletes@,
                );
            }
            Err(e)
        },
    }
}

/// Validate a note's placement and text against the raid's dimensions.
///
/// The fractional offset within a block is checked at the transport edge.
pub fn op_upsert_note(
    ctx: &StrategyContext,
    raid: &RaidInfo,
    token: u128,
    block: i32,
    at: i32,
    content: &Vec<u8>,
) -> (r: Result<(), ServiceError>)
    ensures
        ({
            let elev = ctx.elevated_peers@.contains(token);
            let valid = 1 <= block as int <= raid.headcount as int + 1 && -MAX_COUNTDOWN <= at
                <= raid.duration && content@.len() <= MAX_NOTE_LENGTH;
            match r {
                Ok(()) => elev && valid,
                Err(ServiceError::PermissionDenied) => !elev,
                Err(ServiceError::InvalidArgument) => elev && !valid,
                Err(_) => false,
            }
        }),
{
    if !is_elevated(ctx, token) {
        return Err(ServiceError::PermissionDenied);
    }
    if block < 1 || (block as i64) > (raid.headcount as i64) + 1 {
        return Err(ServiceError::InvalidArgument);
    }
    if at < -MAX_COUNTDOWN || at > raid.duration {
        return Err(ServiceError::InvalidArgument);
    }
    if content.len() > MAX_NOTE_LENGTH {
        return Err(ServiceError::InvalidArgument);
    }
    Ok(())
}

/// Authorize a note deletion: only elevation is checked; the row filter is
/// keyed by the note id and the strategy at persistence.
pub fn op_delete_note(ctx: &StrategyContext, token: u128) -> (r: Result<(), ServiceError>)
    ensures
        match r {
            Ok(()) => ctx.elevated_peers@.contains(token),
            Err(e) => e == ServiceError::PermissionDenied && !ctx.elevated_peers@.contains(
                token,
            ),
        },
{
    if !is_elevated(ctx, token) {
        return Err(ServiceError::PermissionDenied);
    }
    Ok(())
}

/// The peers a broadcast reaches: everyone attached but the source.
pub fn broadcast_targets(ctx: &StrategyContext, token: u128) -> (r: Vec<u128>)
    ensures
        r@ == ctx.peers@.filter(|t: u128| t != token),
{
    remove_token(&ctx.peers, token)
}

} // verus!
