//! Per-component key table: the durable record of every key provisioned for
//! one component, with compare-and-swap state updates.
//!
//! Durability is the hosting process's concern; this module is the exact
//! in-memory table that a persistence layer writes through.

use vstd::prelude::*;

use crate::errors::PoolError;
use crate::keys::{expired_version, key_eligible, key_live, Key, KeyState};

verus! {

/// The keys tracked for one component, plus the next fresh identifier.
/// Identifiers are never reused: every key ever inserted got a value of
/// `next_key_id` current at its insertion.
pub struct ComponentStore {
    pub keys: Vec<Key>,
    pub next_key_id: i32,
}

/// No two keys in the table share an identifier.
pub open spec fn ids_unique(s: Seq<Key>) -> bool {
    forall|i: int, j: int|
        0 <= i < j < s.len() ==> (#[trigger] s[i]).key_id != (#[trigger] s[j]).key_id
}

/// Every identifier is a past value of the freshness counter.
pub open spec fn ids_bounded(s: Seq<Key>, next: i32) -> bool {
    forall|i: int| 0 <= i < s.len() ==> 0 <= (#[trigger] s[i]).key_id < next
}

/// A key records a holder exactly when it is assigned.
pub open spec fn caller_consistent(s: Seq<Key>) -> bool {
    forall|i: int|
        0 <= i < s.len()
            ==> (((#[trigger] s[i]).state == KeyState::Assigned) <==> s[i].assigned_caller is Some)
}

/// Some key in the table carries this identifier.
pub open spec fn has_id(s: Seq<Key>, id: i32) -> bool {
    exists|i: int| 0 <= i < s.len() && (#[trigger] s[i]).key_id == id
}

/// Number of keys eligible for assignment at time `now`.
pub open spec fn count_eligible(s: Seq<Key>, now: u64) -> int
    decreases s.len(),
{
    if s.len() == 0 {
        0
    } else {
        count_eligible(s.drop_last(), now) + if key_eligible(s.last(), now) {
            1int
        } else {
            0int
        }
    }
}

/// The table after the sweep marks every live key past its expiry.
pub open spec fn marked(s: Seq<Key>, now: u64) -> Seq<Key> {
    s.map(
        |i: int, k: Key|
            if key_live(k) && k.expiry_time <= now {
                expired_version(k)
            } else {
                k
            },
    )
}

/// A key the retention sweep may delete: retired and past the cutoff.
pub open spec fn purgeable(k: Key, cutoff: u64) -> bool {
    (k.state == KeyState::Expired || k.state == KeyState::Revoked) && k.expiry_time < cutoff
}

/// The table after the retention sweep deletes purgeable keys, order kept.
pub open spec fn retained(s: Seq<Key>, cutoff: u64) -> Seq<Key>
    decreases s.len(),
{
    if s.len() == 0 {
        Seq::empty()
    } else {
        let rest = retained(s.drop_last(), cutoff);
        if purgeable(s.last(), cutoff) {
            rest
        } else {
            rest.push(s.last())
        }
    }
}

/// The identifiers of the keys standing in state `st`, in table order.
pub open spec fn ids_in_state(s: Seq<Key>, st: KeyState) -> Seq<i32>
    decreases s.len(),
{
    if s.len() == 0 {
        Seq::empty()
    } else {
        let rest = ids_in_state(s.drop_last(), st);
        if s.last().state == st {
            rest.push(s.last().key_id)
        } else {
            rest
        }
    }
}

/// One successful compare-and-swap: key `id` stood at index `i` in state
/// `expected` and now carries `new_state` and `new_caller`; nothing else
/// changed. Linearizable per key, this is the sole mutation primitive that
/// concurrent assignment races are resolved through.
pub open spec fn cas_transition(
    pre: Seq<Key>,
    post: Seq<Key>,
    i: int,
    id: i32,
    expected: KeyState,
    new_state: KeyState,
    new_caller: Option<u64>,
) -> bool {
    &&& 0 <= i < pre.len()
    &&& pre[i].key_id == id
    &&& pre[i].state == expected
    &&& post == pre.update(
        i,
        Key {
            key_id: pre[i].key_id,
            key_blob: pre[i].key_blob,
            cert_chain: pre[i].cert_chain,
            state: new_state,
            expiry_time: pre[i].expiry_time,
            assigned_caller: new_caller,
        },
    )
}

/// Shape of one freshly inserted key: unassigned, with the given contents.
pub open spec fn new_key_matches(k: Key, id: int, blob: Seq<u8>, chain: Seq<u8>, expiry: u64) -> bool {
    &&& k.key_id == id
    &&& k.key_blob@ == blob
    &&& k.cert_chain@ == chain
    &&& k.state == KeyState::Unassigned
    &&& k.expiry_time == expiry
    &&& k.assigned_caller is None
}

/// One atomic batch insert: the prior keys stand unchanged and the batch is
/// appended whole, with fresh consecutive identifiers.
pub open spec fn insert_transition(
    pre: ComponentStore,
    post: ComponentStore,
    blobs: Seq<Seq<u8>>,
    chains: Seq<Seq<u8>>,
    expiry: u64,
) -> bool {
    &&& blobs.len() == chains.len()
    &&& post.keys@.len() == pre.keys@.len() + blobs.len()
    &&& forall|i: int| 0 <= i < pre.keys@.len() ==> post.keys@[i] == pre.keys@[i]
    &&& forall|j: int|
        0 <= j < blobs.len() ==> new_key_matches(
            #[trigger] post.keys@[pre.keys@.len() + j],
            pre.next_key_id + j,
            blobs[j],
            chains[j],
            expiry,
        )
    &&& post.next_key_id == pre.next_key_id + blobs.len()
}

impl ComponentStore {
    /// Well-formedness: unique bounded identifiers and consistent holders.
    pub open spec fn wf(self) -> bool {
        &&& ids_unique(self.keys@)
        &&& ids_bounded(self.keys@, self.next_key_id)
        &&& caller_consistent(self.keys@)
        &&& self.next_key_id >= 0
    }

    /// An empty table.
    pub fn new() -> (r: ComponentStore)
        ensures
            r.wf(),
            r.keys@.len() == 0,
            r.next_key_id == 0,
    {
        ComponentStore { keys: Vec::new(), next_key_id: 0 }
    }

    /// Index of the key carrying `key_id`, if any.
    pub fn find_index(&self, key_id: i32) -> (r: Option<usize>)
        ensures
            match r {
                Some(i) => i < self.keys@.len() && self.keys@[i as int].key_id == key_id,
                None => !has_id(self.keys@, key_id),
            },
            (r is Some) <==> has_id(self.keys@, key_id),
    {
        let mut i: usize = 0;
        while i < self.keys.len()
            invariant
                i <= self.keys@.len(),
                forall|j: int| 0 <= j < i ==> (#[trigger] self.keys@[j]).key_id != key_id,
            decreases self.keys@.len() - i,
        {
            if self.keys[i].key_id == key_id {
                return Some(i);
            }
            i = i + 1;
        }
        None
    }

    /// Reads the key carrying `key_id`; `None` exactly when no key does.
    pub fn get(&self, key_id: i32) -> (r: Option<&Key>)
        ensures
            match r {
                Some(k) => {
                    &&& k.key_id == key_id
                    &&& exists|i: int| 0 <= i < self.keys@.len() && *k == #[trigger] self.keys@[i]
                },
                None => !has_id(self.keys@, key_id),
            },
            (r is Some) <==> has_id(self.keys@, key_id),
    {
        match self.find_index(key_id) {
            Some(i) => Some(&self.keys[i]),
            None => None,
        }
    }

    /// Appends a batch of freshly provisioned keys, all visible together.
    /// Blob `j` and chain `j` form key `j` of the batch; the keys come out
    /// unassigned, expiring at `expiry_time`, with consecutive fresh
    /// identifiers starting at the returned value.
    pub fn insert_batch(&mut self, blobs: Vec<Vec<u8>>, chains: Vec<Vec<u8>>, expiry_time: u64) -> (first_id:
        i32)
        requires
            old(self).wf(),
            blobs@.len() == chains@.len(),
            old(self).next_key_id + blobs@.len() <= i32::MAX,
        ensures
            final(self).wf(),
            insert_transition(
                *old(self),
                *final(self),
                blobs@.map_values(|b: Vec<u8>| b@),
                chains@.map_values(|c: Vec<u8>| c@),
                expiry_time,
            ),
            first_id == old(self).next_key_id,
    {
        let ghost pre = *self;
        let ghost bview = blobs@.map_values(|b: Vec<u8>| b@);
        let ghost cview = chains@.map_values(|c: Vec<u8>| c@);
        let first_id = self.next_key_id;
        let n = blobs.len();
        let mut j: usize = 0;
        while j < n
            invariant
                j <= n,
                n == bview.len(),
                bview.len() == cview.len(),
                blobs@.len() == n,
                chains@.len() == n,
                forall|t: int|
                    0 <= t < n ==> (#[trigger] blobs@[t])@ == bview[t] && chains@[t]@ == cview[t],
                pre.wf(),
                self.wf(),
                pre.next_key_id + n <= i32::MAX,
                self.next_key_id == pre.next_key_id + j,
                self.keys@.len() == pre.keys@.len() + j,
                forall|i: int| 0 <= i < pre.keys@.len() ==> self.keys@[i] == pre.keys@[i],
                forall|t: int|
                    0 <= t < j ==> new_key_matches(
                        #[trigger] self.keys@[pre.keys@.len() + t],
                        pre.next_key_id + t,
                        bview[t],
                        cview[t],
                        expiry_time,
                    ),
            decreases n - j,
        {
            let b = crate::keys::clone_bytes(&blobs[j]);
            let c = crate::keys::clone_bytes(&chains[j]);
            let k = Key {
                key_id: self.next_key_id,
                key_blob: b,
                cert_chain: c,
                state: KeyState::Unassigned,
                expiry_time,
                assigned_caller: None,
            };
            self.keys.push(k);
            self.next_key_id = self.next_key_id + 1;
            j = j + 1;
        }
        first_id
    }

    /// Compare-and-swap on one key's state: succeeds exactly when a key with
    /// `key_id` currently stands in state `expected`, else fails with
    /// `StateMismatch` and changes nothing. The holder is written atomically
    /// with the state, so an unassigned key never carries a stale holder.
    pub fn set_state(
        &mut self,
        key_id: i32,
        expected: KeyState,
        new_state: KeyState,
        new_caller: Option<u64>,
    ) -> (r: Result<(), PoolError>)
        requires
            old(self).wf(),
            (new_state == KeyState::Assigned) <==> new_caller is Some,
        ensures
            final(self).wf(),
            final(self).next_key_id == old(self).next_key_id,
            match r {
                Ok(()) => exists|i: int|
                    cas_transition(
                        old(self).keys@,
                        final(self).keys@,
                        i,
                        key_id,
                        expected,
                        new_state,
                        new_caller,
                    ),
                Err(e) => {
                    &&& e == PoolError::StateMismatch
                    &&& final(self).keys@ == old(self).keys@
                },
            },
            (r is Ok) <==> exists|i: int|
                0 <= i < old(self).keys@.len() && (#[trigger] old(self).keys@[i]).key_id == key_id
                    && old(self).keys@[i].state == expected,
    {
        let ghost pre = self.keys@;
        match self.find_index(key_id) {
            Some(i) => {
                if self.keys[i].state == expected {
                    let k = self.keys.remove(i);
                    let k2 = Key {
                        key_id: k.key_id,
                        key_blob: k.key_blob,
                        cert_chain: k.cert_chain,
                        state: new_state,
                        expiry_time: k.expiry_time,
                        assigned_caller: new_caller,
                    };
                    self.keys.insert(i, k2);
                    proof {
                        assert(self.keys@ =~= pre.update(
                            i as int,
                            Key {
                                key_id: pre[i as int].key_id,
                                key_blob: pre[i as int].key_blob,
                                cert_chain: pre[i as int].cert_chain,
                                state: new_state,
                                expiry_time: pre[i as int].expiry_time,
                                assigned_caller: new_caller,
                            },
                        ));
                        assert(cas_transition(
                            pre,
                            self.keys@,
                            i as int,
                            key_id,
                            expected,
                            new_state,
                            new_caller,
                        ));
                    }
                    Ok(())
                } else {
                    proof {
                        assert(forall|t: int|
                            0 <= t < pre.len() && (#[trigger] pre[t]).key_id == key_id ==> t == i
                                as int);
                    }
                    Err(PoolError::StateMismatch)
                }
            },
            None => Err(PoolError::StateMismatch),
        }
    }

    /// Index of an eligible key with the earliest expiry (oldest first, so
    /// keys are consumed before they lapse); `None` exactly when no key is
    /// eligible at `now`.
    pub fn select_candidate(&self, now: u64) -> (r: Option<usize>)
        ensures
            match r {
                Some(i) => {
                    &&& i < self.keys@.len()
                    &&& key_eligible(self.keys@[i as int], now)
                    &&& forall|j: int|
                        0 <= j < self.keys@.len() && key_eligible(#[trigger] self.keys@[j], now)
                            ==> self.keys@[i as int].expiry_time <= self.keys@[j].expiry_time
                },
                None => count_eligible(self.keys@, now) == 0,
            },
            (r is Some) <==> count_eligible(self.keys@, now) > 0,
    {
        let mut best: Option<usize> = None;
        let mut i: usize = 0;
        while i < self.keys.len()
            invariant
                i <= self.keys@.len(),
                match best {
                    Some(b) => {
                        &&& b < i
                        &&& key_eligible(self.keys@[b as int], now)
                        &&& forall|j: int|
                            0 <= j < i && key_eligible(#[trigger] self.keys@[j], now)
                                ==> self.keys@[b as int].expiry_time <= self.keys@[j].expiry_time
                    },
                    None => forall|j: int| 0 <= j < i ==> !key_eligible(#[trigger] self.keys@[j], now),
                },
            decreases self.keys@.len() - i,
        {
            let eligible = match self.keys[i].state {
                KeyState::Unassigned => self.keys[i].expiry_time > now,
                _ => false,
            };
            if eligible {
                best = match best {
                    Some(b) => {
                        if self.keys[i].expiry_time < self.keys[b].expiry_time {
                            Some(i)
                        } else {
                            Some(b)
                        }
                    },
                    None => Some(i),
                };
            }
            i = i + 1;
        }
        proof {
            match best {
                Some(_) => {
                    lemma_count_eligible_pos(self.keys@, now);
                },
                None => {
                    lemma_count_eligible_zero(self.keys@, now);
                },
            }
        }
        best
    }

    /// Number of keys eligible for assignment at `now`.
    pub fn count_eligible_keys(&self, now: u64) -> (c: usize)
        ensures
            c == count_eligible(self.keys@, now),
    {
        let mut c: usize = 0;
        let mut i: usize = 0;
        while i < self.keys.len()
            invariant
                i <= self.keys@.len(),
                c <= i,
                c == count_eligible(self.keys@.subrange(0, i as int), now),
            decreases self.keys@.len() - i,
        {
            let eligible = match self.keys[i].state {
                KeyState::Unassigned => self.keys[i].expiry_time > now,
                _ => false,
            };
            proof {
                assert(self.keys@.subrange(0, i + 1).drop_last() =~= self.keys@.subrange(
                    0,
                    i as int,
                ));
                assert(self.keys@.subrange(0, i + 1).last() == self.keys@[i as int]);
                lemma_count_eligible_bounds(self.keys@.subrange(0, i as int), now);
            }
            if eligible {
                c = c + 1;
            }
            i = i + 1;
        }
        proof {
            assert(self.keys@.subrange(0, self.keys@.len() as int) =~= self.keys@);
        }
        c
    }

    /// Lists the identifiers of the keys standing in state `state_filter`,
    /// in table order.
    pub fn list(&self, state_filter: KeyState) -> (r: Vec<i32>)
        ensures
            r@ == ids_in_state(self.keys@, state_filter),
    {
        let mut r: Vec<i32> = Vec::new();
        let mut i: usize = 0;
        while i < self.keys.len()
            invariant
                i <= self.keys@.len(),
                r@ == ids_in_state(self.keys@.subrange(0, i as int), state_filter),
            decreases self.keys@.len() - i,
        {
            proof {
                assert(self.keys@.subrange(0, i + 1).drop_last() =~= self.keys@.subrange(
                    0,
                    i as int,
                ));
                assert(self.keys@.subrange(0, i + 1).last() == self.keys@[i as int]);
            }
            let matches_filter = match (self.keys[i].state, state_filter) {
                (KeyState::Unassigned, KeyState::Unassigned) => true,
                (KeyState::Assigned, KeyState::Assigned) => true,
                (KeyState::Expired, KeyState::Expired) => true,
                (KeyState::Revoked, KeyState::Revoked) => true,
                _ => false,
            };
            if matches_filter {
                r.push(self.keys[i].key_id);
            }
            i = i + 1;
        }
        proof {
            assert(self.keys@.subrange(0, self.keys@.len() as int) =~= self.keys@);
        }
        r
    }

    /// Marks every live key past its expiry as expired, clearing the holder
    /// atomically with the state change; nothing else changes.
    pub fn mark_expired(&mut self, now: u64)
        requires
            old(self).wf(),
        ensures
            final(self).wf(),
            final(self).next_key_id == old(self).next_key_id,
            final(self).keys@ == marked(old(self).keys@, now),
    {
        let ghost pre = self.keys@;
        let mut i: usize = 0;
        while i < self.keys.len()
            invariant
                i <= self.keys@.len(),
                self.keys@.len() == pre.len(),
                self.next_key_id == old(self).next_key_id,
                pre == old(self).keys@,
                old(self).wf(),
                forall|t: int| 0 <= t < i ==> self.keys@[t] == marked(pre, now)[t],
                forall|t: int| i <= t < pre.len() ==> self.keys@[t] == pre[t],
            decreases self.keys@.len() - i,
        {
            let lapse = match self.keys[i].state {
                KeyState::Unassigned => self.keys[i].expiry_time <= now,
                KeyState::Assigned => self.keys[i].expiry_time <= now,
                _ => false,
            };
            if lapse {
                let k = self.keys.remove(i);
                let k2 = Key {
                    key_id: k.key_id,
                    key_blob: k.key_blob,
                    cert_chain: k.cert_chain,
                    state: KeyState::Expired,
                    expiry_time: k.expiry_time,
                    assigned_caller: None,
                };
                self.keys.insert(i, k2);
            }
            i = i + 1;
        }
        proof {
            assert(self.keys@ =~= marked(pre, now));
            assert forall|a: int, b: int| 0 <= a < b < self.keys@.len() implies (
            #[trigger] self.keys@[a]).key_id != (#[trigger] self.keys@[b]).key_id by {
                assert(self.keys@[a].key_id == pre[a].key_id);
                assert(self.keys@[b].key_id == pre[b].key_id);
            }
            assert forall|a: int| 0 <= a < self.keys@.len() implies 0 <= (
            #[trigger] self.keys@[a]).key_id < self.next_key_id by {
                assert(self.keys@[a].key_id == pre[a].key_id);
            }
        }
    }

    /// Deletes every retired key whose expiry lies before `cutoff`; the
    /// surviving keys keep their order. Live keys are never deleted.
    pub fn delete_expired_before(&mut self, cutoff: u64)
        requires
            old(self).wf(),
        ensures
            final(self).wf(),
            final(self).next_key_id == old(self).next_key_id,
            final(self).keys@ == retained(old(self).keys@, cutoff),
    {
        let ghost pre = self.keys@;
        let mut kept: Vec<Key> = Vec::new();
        let ghost mut i: int = 0;
        while self.keys.len() > 0
            invariant
                0 <= i <= pre.len(),
                self.next_key_id == old(self).next_key_id,
                self.keys@ == pre.subrange(i, pre.len() as int),
                kept@ == retained(pre.subrange(0, i), cutoff),
            decreases self.keys@.len(),
        {
            let k = self.keys.remove(0);
            proof {
                assert(k == pre[i]);
                assert(pre.subrange(0, i + 1).drop_last() =~= pre.subrange(0, i));
                assert(pre.subrange(0, i + 1).last() == pre[i]);
            }
            let keep = match k.state {
                KeyState::Expired => !(k.expiry_time < cutoff),
                KeyState::Revoked => !(k.expiry_time < cutoff),
                _ => true,
            };
            if keep {
                kept.push(k);
            }
            proof {
                i = i + 1;
                assert(self.keys@ =~= pre.subrange(i, pre.len() as int));
            }
        }
        proof {
            assert(pre.subrange(0, pre.len() as int) =~= pre);
        }
        self.keys = kept;
        proof {
            lemma_retained_wf(pre, cutoff, self.next_key_id);
        }
    }
}

/// A table with no eligible key has an eligible count of zero, and the other
/// way round.
pub proof fn lemma_count_eligible_zero(s: Seq<Key>, now: u64)
    requires
        forall|j: int| 0 <= j < s.len() ==> !key_eligible(#[trigger] s[j], now),
    ensures
        count_eligible(s, now) == 0,
    decreases s.len(),
{
    if s.len() > 0 {
        lemma_count_eligible_zero(s.drop_last(), now);
    }
}

/// A table holding at least one eligible key has a positive eligible count.
pub proof fn lemma_count_eligible_pos(s: Seq<Key>, now: u64)
    requires
        exists|j: int| 0 <= j < s.len() && key_eligible(#[trigger] s[j], now),
    ensures
        count_eligible(s, now) > 0,
    decreases s.len(),
{
    lemma_count_eligible_bounds(s, now);
    let j = choose|j: int| 0 <= j < s.len() && key_eligible(#[trigger] s[j], now);
    if j == s.len() - 1 {
        lemma_count_eligible_bounds(s.drop_last(), now);
    } else {
        assert(0 <= j < s.drop_last().len() && key_eligible(s.drop_last()[j], now));
        lemma_count_eligible_pos(s.drop_last(), now);
    }
}

/// The eligible count lies between zero and the table's size.
pub proof fn lemma_count_eligible_bounds(s: Seq<Key>, now: u64)
    ensures
        0 <= count_eligible(s, now) <= s.len(),
    decreases s.len(),
{
    if s.len() > 0 {
        lemma_count_eligible_bounds(s.drop_last(), now);
    }
}

/// Every key surviving the retention sweep stood in the table before it.
pub proof fn lemma_retained_membership(s: Seq<Key>, cutoff: u64)
    ensures
        forall|i: int|
            0 <= i < retained(s, cutoff).len() ==> exists|j: int|
                0 <= j < s.len() && #[trigger] retained(s, cutoff)[i] == s[j],
    decreases s.len(),
{
    if s.len() > 0 {
        lemma_retained_membership(s.drop_last(), cutoff);
        let r = retained(s, cutoff);
        let rd = retained(s.drop_last(), cutoff);
        assert forall|i: int| 0 <= i < r.len() implies exists|j: int|
            0 <= j < s.len() && #[trigger] r[i] == s[j] by {
            if i < rd.len() {
                let j = choose|j: int| 0 <= j < s.drop_last().len() && rd[i] == s.drop_last()[j];
                assert(r[i] == s[j]);
            } else {
                assert(r[i] == s[s.len() - 1]);
            }
        }
    }
}

/// The retention sweep preserves the table's well-formedness.
pub proof fn lemma_retained_wf(s: Seq<Key>, cutoff: u64, next: i32)
    requires
        ids_unique(s),
        ids_bounded(s, next),
        caller_consistent(s),
    ensures
        ids_unique(retained(s, cutoff)),
        ids_bounded(retained(s, cutoff), next),
        caller_consistent(retained(s, cutoff)),
    decreases s.len(),
{
    if s.len() > 0 {
        lemma_retained_wf(s.drop_last(), cutoff, next);
        lemma_retained_membership(s.drop_last(), cutoff);
        let r = retained(s, cutoff);
        let rd = retained(s.drop_last(), cutoff);
        if !purgeable(s.last(), cutoff) {
            assert forall|a: int, b: int| 0 <= a < b < r.len() implies (#[trigger] r[a]).key_id != (
            #[trigger] r[b]).key_id by {
                if b == r.len() - 1 {
                    let j = choose|j: int|
                        0 <= j < s.drop_last().len() && #[trigger] rd[a] == s.drop_last()[j];
                    assert(r[a] == s[j]);
                    assert(r[b] == s[s.len() - 1]);
                }
            }
        }
    }
}

} // verus!
