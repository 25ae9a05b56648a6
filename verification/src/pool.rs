//! Pool manager: per-component view over the key store. Serves assignment
//! requests with at-most-once issuance per key, upgrades stored blobs in
//! place, and sweeps expired keys.

use vstd::prelude::*;

use crate::errors::PoolError;
use crate::keys::{assigned_version, bytes_eq, clone_bytes, key_eligible, Key, KeyState};
use crate::store::{
    cas_transition, count_eligible, has_id, insert_transition, marked, retained, ComponentStore,
};

verus! {

/// Byte appended to a key blob when it is re-wrapped by an upgrade.
pub const UPGRADE_MARKER: u8 = 0x55;

/// The blob as it stands after one upgrade: the old representation with the
/// re-wrap marker appended. The certificate chain and state never change.
pub open spec fn upgraded_blob(b: Seq<u8>) -> Seq<u8> {
    b.push(UPGRADE_MARKER)
}

/// Per-component aggregate: its name, its keys, and the threshold below
/// which replenishment is triggered.
pub struct Pool {
    pub name: String,
    pub store: ComponentStore,
    pub low_watermark: usize,
}

/// The process-wide pool state, one entry per registered component.
pub struct PoolManager {
    pub pools: Vec<Pool>,
}

/// One successful assignment: an eligible key with the earliest expiry among
/// the eligible ones moves to `Assigned`, held by `caller`; nothing else
/// changes. Two concurrent assignments can never both take the same key,
/// because the underlying state change is a compare-and-swap from
/// `Unassigned`.
pub open spec fn assign_transition(pre: Seq<Key>, post: Seq<Key>, i: int, now: u64, caller: u64) -> bool {
    &&& 0 <= i < pre.len()
    &&& key_eligible(pre[i], now)
    &&& forall|j: int|
        0 <= j < pre.len() && key_eligible(#[trigger] pre[j], now) ==> pre[i].expiry_time
            <= pre[j].expiry_time
    &&& post == pre.update(i, assigned_version(pre[i], caller))
}

/// One successful upgrade: the blob of key `id` matched `old_blob` and is
/// replaced by its upgraded representation; chain, state, expiry and holder
/// stay, and no other key changes.
pub open spec fn upgrade_transition(
    pre: Seq<Key>,
    post: Seq<Key>,
    i: int,
    id: i32,
    old_blob: Seq<u8>,
) -> bool {
    &&& 0 <= i < pre.len()
    &&& pre[i].key_id == id
    &&& pre[i].key_blob@ == old_blob
    &&& post.len() == pre.len()
    &&& post[i].key_id == pre[i].key_id
    &&& post[i].key_blob@ == upgraded_blob(old_blob)
    &&& post[i].cert_chain@ == pre[i].cert_chain@
    &&& post[i].state == pre[i].state
    &&& post[i].expiry_time == pre[i].expiry_time
    &&& post[i].assigned_caller == pre[i].assigned_caller
    &&& forall|j: int| 0 <= j < pre.len() && j != i ==> post[j] == pre[j]
}

/// The copy handed to the caller mirrors the assigned key byte for byte.
pub open spec fn returned_key_matches(k: Key, pre: Key, caller: u64) -> bool {
    &&& k.key_id == pre.key_id
    &&& k.key_blob@ == pre.key_blob@
    &&& k.cert_chain@ == pre.cert_chain@
    &&& k.state == KeyState::Assigned
    &&& k.expiry_time == pre.expiry_time
    &&& k.assigned_caller == Some(caller)
}

/// All pools other than `c` stand exactly as before.
pub open spec fn pools_unchanged_except(pre: Seq<Pool>, post: Seq<Pool>, c: int) -> bool {
    &&& post.len() == pre.len()
    &&& forall|p: int| 0 <= p < pre.len() && p != c ==> post[p] == pre[p]
}

/// A pool's identity and threshold are untouched by key operations.
pub open spec fn pool_meta_unchanged(pre: Pool, post: Pool) -> bool {
    &&& post.name@ == pre.name@
    &&& post.low_watermark == pre.low_watermark
}

impl PoolManager {
    /// Well-formedness: every table is well-formed and names are unique.
    pub open spec fn wf(self) -> bool {
        &&& forall|i: int| 0 <= i < self.pools@.len() ==> (#[trigger] self.pools@[i]).store.wf()
        &&& forall|i: int, j: int|
            0 <= i < j < self.pools@.len() ==> (#[trigger] self.pools@[i]).name@ != (
            #[trigger] self.pools@[j]).name@
    }

    /// A manager with no pools.
    pub fn new() -> (r: PoolManager)
        ensures
            r.wf(),
            r.pools@.len() == 0,
    {
        PoolManager { pools: Vec::new() }
    }

    /// Number of registered components.
    pub fn pool_count(&self) -> (n: usize)
        ensures
            n == self.pools@.len(),
    {
        self.pools.len()
    }

    /// Index of the pool named `name`, if one is registered.
    pub fn find_pool(&self, name: &String) -> (r: Option<usize>)
        ensures
            match r {
                Some(i) => i < self.pools@.len() && self.pools@[i as int].name@ == name@,
                None => forall|j: int| 0 <= j < self.pools@.len() ==> (#[trigger] self.pools@[j]).name@ != name@,
            },
    {
        let mut i: usize = 0;
        while i < self.pools.len()
            invariant
                i <= self.pools@.len(),
                forall|j: int| 0 <= j < i ==> (#[trigger] self.pools@[j]).name@ != name@,
            decreases self.pools@.len() - i,
        {
            if self.pools[i].name == *name {
                return Some(i);
            }
            i = i + 1;
        }
        None
    }

    /// Index of the pool named `name`, creating an empty one with the given
    /// threshold when none is registered yet. Existing pools are untouched.
    pub fn find_or_create(&mut self, name: String, low_watermark: usize) -> (idx: usize)
        requires
            old(self).wf(),
        ensures
            final(self).wf(),
            idx < final(self).pools@.len(),
            final(self).pools@[idx as int].name@ == name@,
            forall|p: int|
                0 <= p < old(self).pools@.len() ==> final(self).pools@[p] == old(self).pools@[p],
            (exists|p: int|
                0 <= p < old(self).pools@.len() && (#[trigger] old(self).pools@[p]).name@ == name@)
                ==> final(self).pools@ == old(self).pools@,
            !(exists|p: int|
                0 <= p < old(self).pools@.len() && (#[trigger] old(self).pools@[p]).name@ == name@)
                ==> {
                &&& final(self).pools@.len() == old(self).pools@.len() + 1
                &&& idx == old(self).pools@.len()
                &&& final(self).pools@[idx as int].store.keys@.len() == 0
                &&& final(self).pools@[idx as int].store.next_key_id == 0
                &&& final(self).pools@[idx as int].low_watermark == low_watermark
            },
    {
        match self.find_pool(&name) {
            Some(i) => {
                proof {
                    assert(self.pools@ =~= old(self).pools@);
                }
                i
            },
            None => {
                let idx = self.pools.len();
                let pool = Pool { name, store: ComponentStore::new(), low_watermark };
                self.pools.push(pool);
                idx
            },
        }
    }

    /// Number of keys of pool `comp` eligible for assignment at `now`.
    pub fn count_eligible_keys(&self, comp: usize, now: u64) -> (c: usize)
        requires
            comp < self.pools@.len(),
        ensures
            c == count_eligible(self.pools@[comp as int].store.keys@, now),
    {
        self.pools[comp].store.count_eligible_keys(now)
    }

    /// The pool's supply is below its replenishment threshold at `now`.
    pub fn below_watermark(&self, comp: usize, now: u64) -> (r: bool)
        requires
            comp < self.pools@.len(),
        ensures
            r == (count_eligible(self.pools@[comp as int].store.keys@, now) < self.pools@[comp
                as int].low_watermark),
    {
        let c = self.pools[comp].store.count_eligible_keys(now);
        c < self.pools[comp].low_watermark
    }

    /// Assigns one key of pool `comp` to `caller`: the eligible key with the
    /// earliest expiry moves to `Assigned` through the store's
    /// compare-and-swap, and a byte-identical copy is returned. Fails with
    /// `Exhausted` exactly when no key is eligible at `now`, leaving the
    /// state unchanged. An expired key is never returned.
    pub fn assign_key(&mut self, comp: usize, now: u64, caller: u64) -> (r: Result<
        Key,
        PoolError,
    >)
        requires
            old(self).wf(),
            comp < old(self).pools@.len(),
        ensures
            final(self).wf(),
            pools_unchanged_except(old(self).pools@, final(self).pools@, comp as int),
            pool_meta_unchanged(
                old(self).pools@[comp as int],
                final(self).pools@[comp as int],
            ),
            final(self).pools@[comp as int].store.next_key_id == old(self).pools@[comp
                as int].store.next_key_id,
            match r {
                Ok(k) => {
                    &&& exists|i: int|
                        {
                            &&& #[trigger] assign_transition(
                                old(self).pools@[comp as int].store.keys@,
                                final(self).pools@[comp as int].store.keys@,
                                i,
                                now,
                                caller,
                            )
                            &&& returned_key_matches(
                                k,
                                old(self).pools@[comp as int].store.keys@[i],
                                caller,
                            )
                        }
                    &&& k.expiry_time > now
                },
                Err(e) => {
                    &&& e == PoolError::Exhausted
                    &&& final(self).pools@ == old(self).pools@
                    &&& count_eligible(old(self).pools@[comp as int].store.keys@, now) == 0
                },
            },
            (r is Ok) <==> count_eligible(old(self).pools@[comp as int].store.keys@, now) > 0,
    {
        let ghost pre_pools = self.pools@;
        let mut p = self.pools.remove(comp);
        let ghost pre_keys = p.store.keys@;
        match p.store.select_candidate(now) {
            Some(i) => {
                let key_id = p.store.keys[i].key_id;
                let ghost pre_key = p.store.keys@[i as int];
                let cas = p.store.set_state(
                    key_id,
                    KeyState::Unassigned,
                    KeyState::Assigned,
                    Some(caller),
                );
                proof {
                    assert(cas is Ok);
                }
                let ghost t = choose|t: int|
                    cas_transition(
                        pre_keys,
                        p.store.keys@,
                        t,
                        key_id,
                        KeyState::Unassigned,
                        KeyState::Assigned,
                        Some(caller),
                    );
                proof {
                    assert(t == i as int);
                    assert(p.store.keys@ == pre_keys.update(
                        i as int,
                        assigned_version(pre_key, caller),
                    ));
                    assert(assign_transition(pre_keys, p.store.keys@, i as int, now, caller));
                }
                let blob = clone_bytes(&p.store.keys[i].key_blob);
                let chain = clone_bytes(&p.store.keys[i].cert_chain);
                let expiry_time = p.store.keys[i].expiry_time;
                let k = Key {
                    key_id,
                    key_blob: blob,
                    cert_chain: chain,
                    state: KeyState::Assigned,
                    expiry_time,
                    assigned_caller: Some(caller),
                };
                self.pools.insert(comp, p);
                proof {
                    crate::store::lemma_count_eligible_pos(pre_keys, now);
                }
                Ok(k)
            },
            None => {
                self.pools.insert(comp, p);
                proof {
                    assert(self.pools@ =~= pre_pools);
                }
                Err(PoolError::Exhausted)
            },
        }
    }

    /// Upgrades the blob of key `key_id` in pool `comp`: succeeds exactly
    /// when a key with that identifier exists and its stored blob matches
    /// `old_blob`, replacing the blob by its re-wrapped representation and
    /// returning a copy. On a mismatch it fails with `NotFound` and mutates
    /// nothing. The chain, state, expiry and holder never change.
    pub fn upgrade_key(&mut self, comp: usize, key_id: i32, old_blob: &[u8]) -> (r: Result<
        Vec<u8>,
        PoolError,
    >)
        requires
            old(self).wf(),
            comp < old(self).pools@.len(),
        ensures
            final(self).wf(),
            pools_unchanged_except(old(self).pools@, final(self).pools@, comp as int),
            pool_meta_unchanged(
                old(self).pools@[comp as int],
                final(self).pools@[comp as int],
            ),
            final(self).pools@[comp as int].store.next_key_id == old(self).pools@[comp
                as int].store.next_key_id,
            match r {
                Ok(b) => {
                    &&& b@ == upgraded_blob(old_blob@)
                    &&& exists|i: int|
                        #[trigger] upgrade_transition(
                            old(self).pools@[comp as int].store.keys@,
                            final(self).pools@[comp as int].store.keys@,
                            i,
                            key_id,
                            old_blob@,
                        )
                },
                Err(e) => {
                    &&& e == PoolError::NotFound
                    &&& final(self).pools@ == old(self).pools@
                },
            },
            (r is Ok) <==> exists|i: int|
                0 <= i < old(self).pools@[comp as int].store.keys@.len() && (#[trigger] old(
                    self,
                ).pools@[comp as int].store.keys@[i]).key_id == key_id && old(self).pools@[comp
                    as int].store.keys@[i].key_blob@ == old_blob@,
    {
        let ghost pre_pools = self.pools@;
        let mut p = self.pools.remove(comp);
        let ghost pre_keys = p.store.keys@;
        match p.store.find_index(key_id) {
            Some(i) => {
                if bytes_eq(old_blob, p.store.keys[i].key_blob.as_slice()) {
                    let k = p.store.keys.remove(i);
                    let mut nb = k.key_blob;
                    nb.push(UPGRADE_MARKER);
                    let ret = clone_bytes(&nb);
                    let k2 = Key {
                        key_id: k.key_id,
                        key_blob: nb,
                        cert_chain: k.cert_chain,
                        state: k.state,
                        expiry_time: k.expiry_time,
                        assigned_caller: k.assigned_caller,
                    };
                    p.store.keys.insert(i, k2);
                    proof {
                        assert(upgrade_transition(
                            pre_keys,
                            p.store.keys@,
                            i as int,
                            key_id,
                            old_blob@,
                        ));
                        assert forall|a: int, b: int|
                            0 <= a < b < p.store.keys@.len() implies (
                        #[trigger] p.store.keys@[a]).key_id != (#[trigger] p.store.keys@[b]).key_id by {
                            assert(p.store.keys@[a].key_id == pre_keys[a].key_id);
                            assert(p.store.keys@[b].key_id == pre_keys[b].key_id);
                        }
                        assert forall|a: int| 0 <= a < p.store.keys@.len() implies 0 <= (
                        #[trigger] p.store.keys@[a]).key_id < p.store.next_key_id by {
                            assert(p.store.keys@[a].key_id == pre_keys[a].key_id);
                        }
                        assert forall|a: int| 0 <= a < p.store.keys@.len() implies (((
                        #[trigger] p.store.keys@[a]).state == KeyState::Assigned)
                            <==> p.store.keys@[a].assigned_caller is Some) by {
                            assert(p.store.keys@[a].state == pre_keys[a].state);
                            assert(p.store.keys@[a].assigned_caller == pre_keys[a].assigned_caller);
                        }
                    }
                    self.pools.insert(comp, p);
                    proof {
                        assert(pre_pools == old(self).pools@);
                        assert(self.pools@[comp as int].store.keys@ == p.store.keys@);
                        assert(upgrade_transition(
                            old(self).pools@[comp as int].store.keys@,
                            self.pools@[comp as int].store.keys@,
                            i as int,
                            key_id,
                            old_blob@,
                        ));
                    }
                    Ok(ret)
                } else {
                    proof {
                        assert(forall|t: int|
                            0 <= t < pre_keys.len() && (#[trigger] pre_keys[t]).key_id == key_id
                                ==> t == i as int);
                    }
                    self.pools.insert(comp, p);
                    proof {
                        assert(self.pools@ =~= pre_pools);
                    }
                    Err(PoolError::NotFound)
                }
            },
            None => {
                self.pools.insert(comp, p);
                proof {
                    assert(self.pools@ =~= pre_pools);
                }
                Err(PoolError::NotFound)
            },
        }
    }

    /// Reads the key of pool `comp` carrying `key_id`, if any.
    pub fn get_key(&self, comp: usize, key_id: i32) -> (r: Option<&Key>)
        requires
            comp < self.pools@.len(),
        ensures
            match r {
                Some(k) => {
                    &&& k.key_id == key_id
                    &&& exists|i: int|
                        0 <= i < self.pools@[comp as int].store.keys@.len() && *k
                            == #[trigger] self.pools@[comp as int].store.keys@[i]
                },
                None => !has_id(self.pools@[comp as int].store.keys@, key_id),
            },
            (r is Some) <==> has_id(self.pools@[comp as int].store.keys@, key_id),
    {
        self.pools[comp].store.get(key_id)
    }

    /// Appends a replenishment batch to pool `comp`, all keys visible
    /// together.
    pub fn insert_batch(
        &mut self,
        comp: usize,
        blobs: Vec<Vec<u8>>,
        chains: Vec<Vec<u8>>,
        expiry_time: u64,
    ) -> (first_id: i32)
        requires
            old(self).wf(),
            comp < old(self).pools@.len(),
            blobs@.len() == chains@.len(),
            old(self).pools@[comp as int].store.next_key_id + blobs@.len() <= i32::MAX,
        ensures
            final(self).wf(),
            pools_unchanged_except(old(self).pools@, final(self).pools@, comp as int),
            pool_meta_unchanged(
                old(self).pools@[comp as int],
                final(self).pools@[comp as int],
            ),
            insert_transition(
                old(self).pools@[comp as int].store,
                final(self).pools@[comp as int].store,
                blobs@.map_values(|b: Vec<u8>| b@),
                chains@.map_values(|c: Vec<u8>| c@),
                expiry_time,
            ),
            first_id == old(self).pools@[comp as int].store.next_key_id,
    {
        let mut p = self.pools.remove(comp);
        let first_id = p.store.insert_batch(blobs, chains, expiry_time);
        self.pools.insert(comp, p);
        first_id
    }

    /// Sweeps pool `comp` at `now`: marks lapsed live keys expired, then
    /// deletes retired keys whose expiry lies before `cutoff`.
    pub fn sweep_pool(&mut self, comp: usize, now: u64, cutoff: u64)
        requires
            old(self).wf(),
            comp < old(self).pools@.len(),
        ensures
            final(self).wf(),
            pools_unchanged_except(old(self).pools@, final(self).pools@, comp as int),
            pool_meta_unchanged(
                old(self).pools@[comp as int],
                final(self).pools@[comp as int],
            ),
            final(self).pools@[comp as int].store.next_key_id == old(self).pools@[comp
                as int].store.next_key_id,
            final(self).pools@[comp as int].store.keys@ == retained(
                marked(old(self).pools@[comp as int].store.keys@, now),
                cutoff,
            ),
    {
        let mut p = self.pools.remove(comp);
        p.store.mark_expired(now);
        p.store.delete_expired_before(cutoff);
        self.pools.insert(comp, p);
    }
}

} // verus!
