//! The key record and its lifecycle states.

use vstd::prelude::*;

verus! {

/// Lifecycle state of one provisioned key.
#[derive(Clone, Copy, PartialEq, Eq, Structural, Debug)]
pub enum KeyState {
    /// Provisioned and available for assignment.
    Unassigned,
    /// Handed out to exactly one caller; single-use, never unassigned again.
    Assigned,
    /// Past its expiry time; must never be assigned.
    Expired,
    /// Withdrawn; must never be assigned.
    Revoked,
}

/// One remotely provisioned credential tracked by the key store.
pub struct Key {
    /// Locally assigned identifier, unique within a component's pool.
    pub key_id: i32,
    /// Opaque private-key material, owned by the store.
    pub key_blob: Vec<u8>,
    /// Signed certificate chain; immutable once set.
    pub cert_chain: Vec<u8>,
    /// Lifecycle state.
    pub state: KeyState,
    /// Absolute time after which the key must not be assigned.
    pub expiry_time: u64,
    /// Identity of the caller holding the key; present exactly when assigned.
    pub assigned_caller: Option<u64>,
}

/// The pair returned to a caller over the RPC boundary.
#[allow(non_snake_case)]
pub struct RemotelyProvisionedKey {
    pub keyBlob: Vec<u8>,
    pub encodedCertChain: Vec<u8>,
}

/// A key still participating in the pool: available or handed out.
pub open spec fn key_live(k: Key) -> bool {
    k.state == KeyState::Unassigned || k.state == KeyState::Assigned
}

/// A key that `assign_key` may select at time `now`: available and unexpired.
pub open spec fn key_eligible(k: Key, now: u64) -> bool {
    k.state == KeyState::Unassigned && k.expiry_time > now
}

/// The key as it stands after assignment to `caller`: only the state and the
/// holder change.
pub open spec fn assigned_version(k: Key, caller: u64) -> Key {
    Key {
        key_id: k.key_id,
        key_blob: k.key_blob,
        cert_chain: k.cert_chain,
        state: KeyState::Assigned,
        expiry_time: k.expiry_time,
        assigned_caller: Some(caller),
    }
}

/// The key as it stands after the sweep marks it expired: the holder is
/// cleared atomically with the state change.
pub open spec fn expired_version(k: Key) -> Key {
    Key {
        key_id: k.key_id,
        key_blob: k.key_blob,
        cert_chain: k.cert_chain,
        state: KeyState::Expired,
        expiry_time: k.expiry_time,
        assigned_caller: None,
    }
}

/// Copies a byte vector; the result is byte-identical to the input.
pub fn clone_bytes(v: &Vec<u8>) -> (r: Vec<u8>)
    ensures
        r@ == v@,
{
    let mut r: Vec<u8> = Vec::new();
    let mut i: usize = 0;
    while i < v.len()
        invariant
            i <= v.len(),
            r@ == v@.subrange(0, i as int),
        decreases v.len() - i,
    {
        r.push(v[i]);
        i = i + 1;
        proof {
            assert(r@ =~= v@.subrange(0, i as int));
        }
    }
    proof {
        assert(r@ =~= v@);
    }
    r
}

/// Compares two byte strings for equality of contents.
pub fn bytes_eq(a: &[u8], b: &[u8]) -> (r: bool)
    ensures
        r == (a@ == b@),
{
    if a.len() != b.len() {
        proof {
            assert(a@.len() != b@.len());
        }
        return false;
    }
    let mut i: usize = 0;
    while i < a.len()
        invariant
            i <= a.len(),
            a.len() == b.len(),
            forall|j: int| 0 <= j < i ==> a@[j] == b@[j],
        decreases a.len() - i,
    {
        if a[i] != b[i] {
            return false;
        }
        i = i + 1;
    }
    proof {
        assert(a@ =~= b@);
    }
    true
}

} // verus!
