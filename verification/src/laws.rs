//! The pool's global guarantees, proved from the transition contracts:
//! at-most-once issuance per key, exact supply accounting, single-flight
//! replenishment, no assignment of expired keys, and batch-insert round
//! trips.

use vstd::prelude::*;

use crate::fetch::{has_ticket, trigger_transition, FetchTicket};
use crate::keys::{assigned_version, key_eligible, Key, KeyState};
use crate::pool::{assign_transition, upgrade_transition};
use crate::store::{
    count_eligible, has_id, insert_transition, lemma_retained_membership, marked, retained,
    ComponentStore,
};

verus! {

/// Replacing one eligible key by an ineligible one lowers the eligible count
/// by exactly one.
proof fn lemma_count_update_ineligible(s: Seq<Key>, i: int, k: Key, now: u64)
    requires
        0 <= i < s.len(),
        key_eligible(s[i], now),
        !key_eligible(k, now),
    ensures
        count_eligible(s.update(i, k), now) == count_eligible(s, now) - 1,
    decreases s.len(),
{
    let t = s.update(i, k);
    if i == s.len() - 1 {
        assert(t.drop_last() =~= s.drop_last());
        assert(t.last() == k);
    } else {
        assert(t.drop_last() =~= s.drop_last().update(i, k));
        assert(t.last() == s.last());
        lemma_count_update_ineligible(s.drop_last(), i, k, now);
    }
}

/// Supply accounting: every successful assignment consumes exactly one
/// eligible key. Over a pool holding K eligible keys, K assignments in a row
/// succeed and the next one finds the pool exhausted, since `assign_key`
/// succeeds exactly when the eligible count is positive.
pub proof fn lemma_assign_consumes_one(
    pre: Seq<Key>,
    post: Seq<Key>,
    i: int,
    now: u64,
    caller: u64,
)
    requires
        assign_transition(pre, post, i, now, caller),
    ensures
        count_eligible(post, now) == count_eligible(pre, now) - 1,
{
    lemma_count_update_ineligible(pre, i, assigned_version(pre[i], caller), now);
}

/// An assignment moves one key and leaves every identifier in place.
pub proof fn lemma_assign_preserves_ids(
    pre: Seq<Key>,
    post: Seq<Key>,
    i: int,
    now: u64,
    caller: u64,
)
    requires
        assign_transition(pre, post, i, now, caller),
    ensures
        post.len() == pre.len(),
        forall|t: int| 0 <= t < pre.len() ==> (#[trigger] post[t]).key_id == pre[t].key_id,
        post[i].state == KeyState::Assigned,
        forall|t: int| 0 <= t < pre.len() && t != i ==> (#[trigger] post[t]).state == pre[t].state,
{
}

/// Two successive successful assignments never hand out the same key: the
/// first leaves its key `Assigned`, the second takes a key that is still
/// `Unassigned`, and identifiers are unique.
pub proof fn lemma_assign_pair_distinct(
    s0: Seq<Key>,
    s1: Seq<Key>,
    s2: Seq<Key>,
    i: int,
    j: int,
    now0: u64,
    now1: u64,
    c0: u64,
    c1: u64,
)
    requires
        crate::store::ids_unique(s0),
        assign_transition(s0, s1, i, now0, c0),
        assign_transition(s1, s2, j, now1, c1),
    ensures
        s0[i].key_id != s1[j].key_id,
{
    lemma_assign_preserves_ids(s0, s1, i, now0, c0);
    assert(s1[i].state == KeyState::Assigned);
    assert(s1[j].state == KeyState::Unassigned);
    assert(i != j);
}

/// One step a pool's table can take: an assignment, a blob upgrade, an
/// expiry sweep, a retention sweep, or a replenishment batch. These are
/// exactly the transitions the pool manager's operations guarantee.
pub open spec fn pool_step(pre: ComponentStore, post: ComponentStore) -> bool {
    ||| exists|i: int, now: u64, caller: u64|
        #![auto]
        assign_transition(pre.keys@, post.keys@, i, now, caller) && post.next_key_id
            == pre.next_key_id
    ||| exists|i: int, id: i32, blob: Seq<u8>|
        #![auto]
        upgrade_transition(pre.keys@, post.keys@, i, id, blob) && post.next_key_id
            == pre.next_key_id
    ||| exists|now: u64|
        #![auto]
        post.keys@ == marked(pre.keys@, now) && post.next_key_id == pre.next_key_id
    ||| exists|cutoff: u64|
        #![auto]
        post.keys@ == retained(pre.keys@, cutoff) && post.next_key_id == pre.next_key_id
    ||| exists|blobs: Seq<Seq<u8>>, chains: Seq<Seq<u8>>, expiry: u64|
        #![auto]
        insert_transition(pre, post, blobs, chains, expiry)
}

/// An identifier that has been consumed: it lies under the freshness counter
/// and no key carrying it is available for assignment.
pub open spec fn retired_id(s: ComponentStore, id: i32) -> bool {
    &&& id < s.next_key_id
    &&& forall|t: int|
        0 <= t < s.keys@.len() && (#[trigger] s.keys@[t]).key_id == id ==> s.keys@[t].state
            != KeyState::Unassigned
}

/// No step of the pool revives a consumed identifier: once retired, always
/// retired. A key is single-use; `Assigned` never goes back to `Unassigned`,
/// and fresh batches use identifiers never seen before.
pub proof fn lemma_step_preserves_retired(pre: ComponentStore, post: ComponentStore, id: i32)
    requires
        pool_step(pre, post),
        retired_id(pre, id),
    ensures
        retired_id(post, id),
{
    if exists|i: int, now: u64, caller: u64|
        #![auto]
        assign_transition(pre.keys@, post.keys@, i, now, caller) && post.next_key_id
            == pre.next_key_id {
        let (i, now, caller) = choose|i: int, now: u64, caller: u64|
            #![auto]
            assign_transition(pre.keys@, post.keys@, i, now, caller) && post.next_key_id
                == pre.next_key_id;
        assert forall|t: int|
            0 <= t < post.keys@.len() && (#[trigger] post.keys@[t]).key_id == id implies post.keys@[t].state
            != KeyState::Unassigned by {
            if t != i {
                assert(post.keys@[t] == pre.keys@[t]);
            }
        }
    } else if exists|i: int, kid: i32, blob: Seq<u8>|
        #![auto]
        upgrade_transition(pre.keys@, post.keys@, i, kid, blob) && post.next_key_id
            == pre.next_key_id {
        let (i, kid, blob) = choose|i: int, kid: i32, blob: Seq<u8>|
            #![auto]
            upgrade_transition(pre.keys@, post.keys@, i, kid, blob) && post.next_key_id
                == pre.next_key_id;
        assert forall|t: int|
            0 <= t < post.keys@.len() && (#[trigger] post.keys@[t]).key_id == id implies post.keys@[t].state
            != KeyState::Unassigned by {
            if t != i {
                assert(post.keys@[t] == pre.keys@[t]);
            } else {
                assert(post.keys@[t].key_id == pre.keys@[t].key_id);
                assert(post.keys@[t].state == pre.keys@[t].state);
            }
        }
    } else if exists|now: u64|
        #![auto]
        post.keys@ == marked(pre.keys@, now) && post.next_key_id == pre.next_key_id {
        let now = choose|now: u64|
            #![auto]
            post.keys@ == marked(pre.keys@, now) && post.next_key_id == pre.next_key_id;
        assert forall|t: int|
            0 <= t < post.keys@.len() && (#[trigger] post.keys@[t]).key_id == id implies post.keys@[t].state
            != KeyState::Unassigned by {
            assert(pre.keys@[t].key_id == id || post.keys@[t].state == KeyState::Expired);
        }
    } else if exists|cutoff: u64|
        #![auto]
        post.keys@ == retained(pre.keys@, cutoff) && post.next_key_id == pre.next_key_id {
        let cutoff = choose|cutoff: u64|
            #![auto]
            post.keys@ == retained(pre.keys@, cutoff) && post.next_key_id == pre.next_key_id;
        lemma_retained_membership(pre.keys@, cutoff);
        assert forall|t: int|
            0 <= t < post.keys@.len() && (#[trigger] post.keys@[t]).key_id == id implies post.keys@[t].state
            != KeyState::Unassigned by {
            let j = choose|j: int|
                0 <= j < pre.keys@.len() && #[trigger] retained(pre.keys@, cutoff)[t]
                    == pre.keys@[j];
            assert(post.keys@[t] == pre.keys@[j]);
        }
    } else {
        let (blobs, chains, expiry) = choose|blobs: Seq<Seq<u8>>, chains: Seq<Seq<u8>>, expiry: u64|
            #![auto]
            insert_transition(pre, post, blobs, chains, expiry);
        assert forall|t: int|
            0 <= t < post.keys@.len() && (#[trigger] post.keys@[t]).key_id == id implies post.keys@[t].state
            != KeyState::Unassigned by {
            if t >= pre.keys@.len() {
                let u = t - pre.keys@.len();
                assert(crate::store::new_key_matches(
                    post.keys@[pre.keys@.len() + u],
                    pre.next_key_id + u,
                    blobs[u],
                    chains[u],
                    expiry,
                ));
                assert(post.keys@[t].key_id >= pre.next_key_id > id);
            } else {
                assert(post.keys@[t] == pre.keys@[t]);
            }
        }
    }
}

/// Every step of the pool preserves the table's well-formedness: unique,
/// bounded identifiers and holders recorded exactly on assigned keys.
pub proof fn lemma_step_preserves_wf(pre: ComponentStore, post: ComponentStore)
    requires
        pre.wf(),
        pool_step(pre, post),
    ensures
        post.wf(),
{
    if exists|i: int, now: u64, caller: u64|
        #![auto]
        assign_transition(pre.keys@, post.keys@, i, now, caller) && post.next_key_id
            == pre.next_key_id {
        let (i, now, caller) = choose|i: int, now: u64, caller: u64|
            #![auto]
            assign_transition(pre.keys@, post.keys@, i, now, caller) && post.next_key_id
                == pre.next_key_id;
        assert(forall|t: int|
            0 <= t < post.keys@.len() && t != i ==> #[trigger] post.keys@[t] == pre.keys@[t]);
        assert(post.keys@[i] == assigned_version(pre.keys@[i], caller));
        assert forall|a: int, b: int| 0 <= a < b < post.keys@.len() implies (
        #[trigger] post.keys@[a]).key_id != (#[trigger] post.keys@[b]).key_id by {
            assert(post.keys@[a].key_id == pre.keys@[a].key_id);
            assert(post.keys@[b].key_id == pre.keys@[b].key_id);
        }
        assert forall|a: int| 0 <= a < post.keys@.len() implies 0 <= (
        #[trigger] post.keys@[a]).key_id < post.next_key_id by {
            assert(post.keys@[a].key_id == pre.keys@[a].key_id);
        }
    } else if exists|i: int, kid: i32, blob: Seq<u8>|
        #![auto]
        upgrade_transition(pre.keys@, post.keys@, i, kid, blob) && post.next_key_id
            == pre.next_key_id {
        let (i, kid, blob) = choose|i: int, kid: i32, blob: Seq<u8>|
            #![auto]
            upgrade_transition(pre.keys@, post.keys@, i, kid, blob) && post.next_key_id
                == pre.next_key_id;
        assert forall|a: int, b: int| 0 <= a < b < post.keys@.len() implies (
        #[trigger] post.keys@[a]).key_id != (#[trigger] post.keys@[b]).key_id by {
            assert(post.keys@[a].key_id == pre.keys@[a].key_id);
            assert(post.keys@[b].key_id == pre.keys@[b].key_id);
        }
        assert forall|a: int| 0 <= a < post.keys@.len() implies 0 <= (
        #[trigger] post.keys@[a]).key_id < post.next_key_id && (((#[trigger] post.keys@[a]).state
            == KeyState::Assigned) <==> post.keys@[a].assigned_caller is Some) by {
            assert(post.keys@[a].key_id == pre.keys@[a].key_id);
            assert(post.keys@[a].state == pre.keys@[a].state);
            assert(post.keys@[a].assigned_caller == pre.keys@[a].assigned_caller);
        }
    } else if exists|now: u64|
        #![auto]
        post.keys@ == marked(pre.keys@, now) && post.next_key_id == pre.next_key_id {
        let now = choose|now: u64|
            #![auto]
            post.keys@ == marked(pre.keys@, now) && post.next_key_id == pre.next_key_id;
        assert forall|a: int, b: int| 0 <= a < b < post.keys@.len() implies (
        #[trigger] post.keys@[a]).key_id != (#[trigger] post.keys@[b]).key_id by {
            assert(post.keys@[a].key_id == pre.keys@[a].key_id);
            assert(post.keys@[b].key_id == pre.keys@[b].key_id);
        }
        assert forall|a: int| 0 <= a < post.keys@.len() implies 0 <= (
        #[trigger] post.keys@[a]).key_id < post.next_key_id && (((#[trigger] post.keys@[a]).state
            == KeyState::Assigned) <==> post.keys@[a].assigned_caller is Some) by {
            assert(post.keys@[a].key_id == pre.keys@[a].key_id);
        }
    } else if exists|cutoff: u64|
        #![auto]
        post.keys@ == retained(pre.keys@, cutoff) && post.next_key_id == pre.next_key_id {
        let cutoff = choose|cutoff: u64|
            #![auto]
            post.keys@ == retained(pre.keys@, cutoff) && post.next_key_id == pre.next_key_id;
        crate::store::lemma_retained_wf(pre.keys@, cutoff, pre.next_key_id);
    } else {
        let (blobs, chains, expiry) = choose|blobs: Seq<Seq<u8>>, chains: Seq<Seq<u8>>, expiry: u64|
            #![auto]
            insert_transition(pre, post, blobs, chains, expiry);
        assert forall|a: int| 0 <= a < post.keys@.len() implies 0 <= (
        #[trigger] post.keys@[a]).key_id < post.next_key_id && (((#[trigger] post.keys@[a]).state
            == KeyState::Assigned) <==> post.keys@[a].assigned_caller is Some) by {
            if a >= pre.keys@.len() {
                let u = a - pre.keys@.len();
                assert(crate::store::new_key_matches(
                    post.keys@[pre.keys@.len() + u],
                    pre.next_key_id + u,
                    blobs[u],
                    chains[u],
                    expiry,
                ));
            } else {
                assert(post.keys@[a] == pre.keys@[a]);
            }
        }
        assert forall|a: int, b: int| 0 <= a < b < post.keys@.len() implies (
        #[trigger] post.keys@[a]).key_id != (#[trigger] post.keys@[b]).key_id by {
            if b < pre.keys@.len() {
                assert(post.keys@[a] == pre.keys@[a]);
                assert(post.keys@[b] == pre.keys@[b]);
            } else {
                let ub = b - pre.keys@.len();
                assert(crate::store::new_key_matches(
                    post.keys@[pre.keys@.len() + ub],
                    pre.next_key_id + ub,
                    blobs[ub],
                    chains[ub],
                    expiry,
                ));
                if a < pre.keys@.len() {
                    assert(post.keys@[a] == pre.keys@[a]);
                } else {
                    let ua = a - pre.keys@.len();
                    assert(crate::store::new_key_matches(
                        post.keys@[pre.keys@.len() + ua],
                        pre.next_key_id + ua,
                        blobs[ua],
                        chains[ua],
                        expiry,
                    ));
                }
            }
        }
    }
}

/// Well-formedness holds along any run of pool steps from a well-formed
/// start.
pub proof fn lemma_wf_along_trace(tr: Seq<ComponentStore>, a: int, b: int)
    requires
        forall|t: int| 0 <= t < tr.len() - 1 ==> pool_step(#[trigger] tr[t], tr[t + 1]),
        0 <= a <= b < tr.len(),
        tr[a].wf(),
    ensures
        tr[b].wf(),
    decreases b - a,
{
    if a < b {
        lemma_step_preserves_wf(tr[a], tr[a + 1]);
        lemma_wf_along_trace(tr, a + 1, b);
    }
}

/// Consumed identifiers stay consumed along any run of pool steps.
pub proof fn lemma_retired_along_trace(tr: Seq<ComponentStore>, a: int, b: int, id: i32)
    requires
        forall|t: int| 0 <= t < tr.len() - 1 ==> pool_step(#[trigger] tr[t], tr[t + 1]),
        0 <= a <= b < tr.len(),
        retired_id(tr[a], id),
    ensures
        retired_id(tr[b], id),
    decreases b - a,
{
    if a < b {
        lemma_step_preserves_retired(tr[a], tr[a + 1], id);
        lemma_retired_along_trace(tr, a + 1, b, id);
    }
}

/// At-most-once issuance over any run: however pool operations interleave
/// between them, two successful assignments never return the same key. The
/// key taken at step `t0` is retired from then on, and an assignment only
/// ever takes a key that is still unassigned.
pub proof fn lemma_no_reissue_along_trace(
    tr: Seq<ComponentStore>,
    t0: int,
    t1: int,
    i: int,
    j: int,
    now0: u64,
    now1: u64,
    c0: u64,
    c1: u64,
)
    requires
        forall|t: int| 0 <= t < tr.len() - 1 ==> pool_step(#[trigger] tr[t], tr[t + 1]),
        tr.len() > 0,
        tr[0].wf(),
        0 <= t0,
        t0 < t1,
        t1 < tr.len() - 1,
        assign_transition(tr[t0].keys@, tr[t0 + 1].keys@, i, now0, c0),
        tr[t0 + 1].next_key_id == tr[t0].next_key_id,
        assign_transition(tr[t1].keys@, tr[t1 + 1].keys@, j, now1, c1),
    ensures
        tr[t0].keys@[i].key_id != tr[t1].keys@[j].key_id,
{
    lemma_wf_along_trace(tr, 0, t0);
    let id = tr[t0].keys@[i].key_id;
    lemma_assign_preserves_ids(tr[t0].keys@, tr[t0 + 1].keys@, i, now0, c0);
    assert forall|t: int|
        0 <= t < tr[t0 + 1].keys@.len() && (#[trigger] tr[t0 + 1].keys@[t]).key_id
            == id implies tr[t0 + 1].keys@[t].state != KeyState::Unassigned by {
        if t != i {
            assert(tr[t0].keys@[t].key_id == id);
            assert(tr[t0].keys@[i].key_id == id);
        }
    }
    assert(retired_id(tr[t0 + 1], id));
    lemma_retired_along_trace(tr, t0 + 1, t1, id);
    assert(tr[t1].keys@[j].state == KeyState::Unassigned);
}

/// No key past its expiry is ever assigned: an assignment takes only a key
/// that is unassigned and whose expiry lies strictly after `now`, however
/// long the key sits in the table before a sweep marks it.
pub proof fn lemma_no_expired_assignment(
    pre: Seq<Key>,
    post: Seq<Key>,
    i: int,
    now: u64,
    caller: u64,
)
    requires
        assign_transition(pre, post, i, now, caller),
    ensures
        pre[i].state == KeyState::Unassigned,
        pre[i].expiry_time > now,
        post[i].key_id == pre[i].key_id,
{
}

/// The expiry sweep retires exactly the lapsed keys: afterwards no live key
/// stands past its expiry, and a key still within its lifetime is untouched.
pub proof fn lemma_sweep_retires_lapsed(s: Seq<Key>, now: u64)
    ensures
        forall|i: int|
            0 <= i < s.len() ==> !(crate::keys::key_live(#[trigger] marked(s, now)[i]) && marked(
                s,
                now,
            )[i].expiry_time <= now),
        forall|i: int| 0 <= i < s.len() && s[i].expiry_time > now ==> #[trigger] marked(s, now)[i] == s[i],
{
}

/// The retention sweep never deletes a live key: every key still available
/// or handed out survives it.
pub proof fn lemma_retention_spares_live(s: Seq<Key>, cutoff: u64, i: int)
    requires
        0 <= i < s.len(),
        crate::keys::key_live(s[i]),
    ensures
        exists|j: int|
            0 <= j < retained(s, cutoff).len() && #[trigger] retained(s, cutoff)[j] == s[i],
    decreases s.len(),
{
    let r = retained(s, cutoff);
    let rd = retained(s.drop_last(), cutoff);
    if i == s.len() - 1 {
        assert(!crate::store::purgeable(s.last(), cutoff));
        assert(r[r.len() - 1] == s[i]);
    } else {
        lemma_retention_spares_live(s.drop_last(), cutoff, i);
        let j = choose|j: int| 0 <= j < rd.len() && #[trigger] rd[j] == s.drop_last()[i];
        assert(r[j] == s[i]);
    }
}

/// Single-flight: once a replenishment for a component is in flight, no
/// later trigger starts another fetch until the ticket is retired. In any
/// run of triggers, only the first can start a network exchange.
pub proof fn lemma_single_flight(
    s0: Seq<FetchTicket>,
    s1: Seq<FetchTicket>,
    s2: Seq<FetchTicket>,
    comp: usize,
    b0: bool,
    b1: bool,
)
    requires
        trigger_transition(s0, s1, comp, b0),
        trigger_transition(s1, s2, comp, b1),
    ensures
        !b1,
{
}

/// Single-flight over a whole run of triggers with no completion between
/// them: at most the first trigger starts a fetch; every later one joins it.
pub proof fn lemma_single_flight_run(tr: Seq<Seq<FetchTicket>>, started: Seq<bool>, comp: usize)
    requires
        tr.len() == started.len() + 1,
        forall|t: int|
            0 <= t < started.len() ==> trigger_transition(
                #[trigger] tr[t],
                tr[t + 1],
                comp,
                started[t],
            ),
    ensures
        forall|t: int| 1 <= t < started.len() ==> !(#[trigger] started[t]),
{
    assert forall|t: int| 1 <= t < started.len() implies !(#[trigger] started[t]) by {
        assert(trigger_transition(tr[t - 1], tr[t], comp, started[t - 1]));
        assert(has_ticket(tr[t], comp));
        assert(trigger_transition(tr[t], tr[t + 1], comp, started[t]));
    }
}

/// Round trip through the store: every key of a freshly inserted batch is
/// found under its fresh identifier with byte-identical blob and chain.
/// Together with `get`'s contract, reading the identifier back returns
/// exactly what was inserted.
pub proof fn lemma_insert_then_get(
    pre: ComponentStore,
    post: ComponentStore,
    blobs: Seq<Seq<u8>>,
    chains: Seq<Seq<u8>>,
    expiry: u64,
    j: int,
)
    requires
        pre.wf(),
        insert_transition(pre, post, blobs, chains, expiry),
        0 <= j < blobs.len(),
    ensures
        has_id(post.keys@, (pre.next_key_id + j) as i32),
        forall|t: int|
            0 <= t < post.keys@.len() && (#[trigger] post.keys@[t]).key_id == (pre.next_key_id + j) as i32
                ==> post.keys@[t].key_blob@ == blobs[j] && post.keys@[t].cert_chain@ == chains[j]
                && post.keys@[t].state == KeyState::Unassigned && post.keys@[t].expiry_time
                == expiry,
{
    let id = (pre.next_key_id + j) as i32;
    let w = pre.keys@.len() + j;
    assert(crate::store::new_key_matches(
        post.keys@[pre.keys@.len() + j],
        pre.next_key_id + j,
        blobs[j],
        chains[j],
        expiry,
    ));
    assert(post.keys@[w].key_id == id);
    assert(has_id(post.keys@, id));
    assert forall|t: int|
        0 <= t < post.keys@.len() && (#[trigger] post.keys@[t]).key_id == id implies post.keys@[t].key_blob@
        == blobs[j] && post.keys@[t].cert_chain@ == chains[j] && post.keys@[t].state
        == KeyState::Unassigned && post.keys@[t].expiry_time == expiry by {
        if t < pre.keys@.len() {
            assert(post.keys@[t] == pre.keys@[t]);
            assert(pre.keys@[t].key_id < pre.next_key_id);
            assert(false);
        } else {
            let u = t - pre.keys@.len();
            assert(crate::store::new_key_matches(
                post.keys@[pre.keys@.len() + u],
                pre.next_key_id + u,
                blobs[u],
                chains[u],
                expiry,
            ));
            assert(u == j);
        }
    }
}

} // verus!
