//! Registration sessions and the refresh sweep: the per-caller front end
//! over the pool manager and the fetch coordinator.
//!
//! A session is bound to one component at creation and holds no mutable
//! state of its own; all state lives in the registrar it is used against.
//! The hosting process performs the network exchange a returned
//! `FetchAction::Start` asks for and feeds the outcome back through
//! `complete_fetch`, then retries through `finish_assignment`.

use vstd::prelude::*;

use crate::errors::{FetchError, PoolError};
use crate::fetch::{has_ticket, trigger_transition, FetchAction, FetchCoordinator};
use crate::keys::RemotelyProvisionedKey;
use crate::pool::{
    assign_transition, pool_meta_unchanged, pools_unchanged_except, upgrade_transition,
    upgraded_blob, PoolManager,
};
use crate::store::{count_eligible, insert_transition, marked, retained};

verus! {

/// Threshold under which a pool asks for replenishment, and the batch size
/// of one fetch.
pub const DEFAULT_LOW_WATERMARK: usize = 5;

/// Implements the registrar surface: owns the daemon state and hands out
/// per-component registrations.
pub struct MyRegistrar {
    pub manager: PoolManager,
    pub coordinator: FetchCoordinator,
}

/// Implements the per-caller registration surface, bound to one component.
pub struct MyRegistration {
    pub component: usize,
    pub is_rkp_only: bool,
}

/// Implements the refresh surface: the periodic sweep entry point.
pub struct MyRefresh {}

/// What one assignment request decided.
pub enum AssignOutcome {
    /// A key was assigned. When the pool fell below its threshold the
    /// coordinator was also asked for a proactive replenishment.
    Assigned { key: RemotelyProvisionedKey, replenish: Option<FetchAction> },
    /// No eligible key: a replenishment is in flight (started by this caller
    /// or joined), and the caller must come back through
    /// `finish_assignment`.
    Pending { action: FetchAction },
}

/// How the wait on an in-flight replenishment ended.
#[derive(Clone, Copy, PartialEq, Eq, Structural, Debug)]
pub enum WaitOutcome {
    /// The ticket was signalled before the bound elapsed.
    Completed,
    /// The bound elapsed first; the caller is not starved by a stuck fetch.
    TimedOut,
}

/// The retention cutoff for a sweep at `now`: keys retired longer ago than
/// `retention` are deleted.
pub open spec fn retention_cutoff(now: u64, retention: u64) -> u64 {
    if now >= retention {
        (now - retention) as u64
    } else {
        0
    }
}

impl MyRegistrar {
    /// Well-formedness: both halves are well-formed and every in-flight
    /// ticket names a registered component.
    pub open spec fn wf(self) -> bool {
        &&& self.manager.wf()
        &&& self.coordinator.wf()
        &&& forall|i: int|
            0 <= i < self.coordinator.tickets@.len()
                ==> (#[trigger] self.coordinator.tickets@[i]).component
                < self.manager.pools@.len()
    }

    /// A registrar with no components and nothing in flight.
    pub fn new() -> (r: MyRegistrar)
        ensures
            r.wf(),
            r.manager.pools@.len() == 0,
            r.coordinator.tickets@.len() == 0,
    {
        MyRegistrar { manager: PoolManager::new(), coordinator: FetchCoordinator::new() }
    }

    /// Provides a registration bound to the named component, creating its
    /// (empty) pool on first sight. Existing pools are untouched.
    #[allow(non_snake_case)]
    pub fn getRegistration(&mut self, irpc_name: &str, is_rkp_only: bool) -> (r: MyRegistration)
        requires
            old(self).wf(),
        ensures
            final(self).wf(),
            final(self).coordinator.tickets@ == old(self).coordinator.tickets@,
            r.component < final(self).manager.pools@.len(),
            final(self).manager.pools@[r.component as int].name@ == irpc_name@,
            r.is_rkp_only == is_rkp_only,
            forall|p: int|
                0 <= p < old(self).manager.pools@.len() ==> final(self).manager.pools@[p] == old(
                    self,
                ).manager.pools@[p],
            final(self).manager.pools@.len() <= old(self).manager.pools@.len() + 1,
            (exists|p: int|
                0 <= p < old(self).manager.pools@.len() && (#[trigger] old(self).manager.pools@[p]).name@
                    == irpc_name@) ==> final(self).manager.pools@ == old(self).manager.pools@,
            !(exists|p: int|
                0 <= p < old(self).manager.pools@.len() && (#[trigger] old(self).manager.pools@[p]).name@
                    == irpc_name@) ==> {
                &&& final(self).manager.pools@.len() == old(self).manager.pools@.len() + 1
                &&& final(self).manager.pools@[r.component as int].store.keys@.len() == 0
                &&& final(self).manager.pools@[r.component as int].low_watermark
                    == DEFAULT_LOW_WATERMARK
            },
    {
        let name = irpc_name.to_owned();
        let idx = self.manager.find_or_create(name, DEFAULT_LOW_WATERMARK);
        MyRegistration { component: idx, is_rkp_only }
    }

    /// Applies the outcome of one replenishment exchange and retires the
    /// component's ticket, signalling every waiter. A failed or malformed
    /// exchange leaves the store unmodified — no partial batch is ever
    /// visible. A successful batch becomes visible whole.
    pub fn complete_fetch(
        &mut self,
        comp: usize,
        outcome: Result<(Vec<Vec<u8>>, Vec<Vec<u8>>), FetchError>,
        expiry_time: u64,
    ) -> (r: Result<(), FetchError>)
        requires
            old(self).wf(),
            comp < old(self).manager.pools@.len(),
            outcome matches Ok(bc) ==> old(self).manager.pools@[comp as int].store.next_key_id
                + bc.0@.len() <= i32::MAX,
        ensures
            final(self).wf(),
            !has_ticket(final(self).coordinator.tickets@, comp),
            forall|c: usize|
                c != comp ==> (has_ticket(final(self).coordinator.tickets@, c) <==> has_ticket(
                    old(self).coordinator.tickets@,
                    c,
                )),
            pools_unchanged_except(old(self).manager.pools@, final(self).manager.pools@, comp as int),
            pool_meta_unchanged(
                old(self).manager.pools@[comp as int],
                final(self).manager.pools@[comp as int],
            ),
            match outcome {
                Err(e) => r == Err::<(), FetchError>(e) && final(self).manager.pools@ == old(
                    self,
                ).manager.pools@,
                Ok(bc) => {
                    if bc.0@.len() == bc.1@.len() {
                        &&& r == Ok::<(), FetchError>(())
                        &&& insert_transition(
                            old(self).manager.pools@[comp as int].store,
                            final(self).manager.pools@[comp as int].store,
                            bc.0@.map_values(|b: Vec<u8>| b@),
                            bc.1@.map_values(|c: Vec<u8>| c@),
                            expiry_time,
                        )
                    } else {
                        &&& r == Err::<(), FetchError>(FetchError::Malformed)
                        &&& final(self).manager.pools@ == old(self).manager.pools@
                    }
                },
            },
    {
        let r = match outcome {
            Err(e) => Err(e),
            Ok((blobs, chains)) => {
                if blobs.len() != chains.len() {
                    Err(FetchError::Malformed)
                } else {
                    self.manager.insert_batch(comp, blobs, chains, expiry_time);
                    Ok(())
                }
            },
        };
        self.coordinator.complete(comp);
        r
    }
}

impl MyRegistration {
    /// Serves one key-assignment request at `now` for `caller`. The
    /// requested identifier is advisory: assignment always takes the
    /// eligible key with the earliest expiry. When no key is eligible the
    /// outcome is `Pending` and replenishment is in flight (single-flight);
    /// when a key is assigned and the pool fell below its threshold a
    /// proactive replenishment is also triggered.
    #[allow(non_snake_case)]
    pub fn getRemotelyProvisionedKey(
        &self,
        svc: &mut MyRegistrar,
        key_id: i32,
        now: u64,
        caller: u64,
    ) -> (r: AssignOutcome)
        requires
            old(svc).wf(),
            self.component < old(svc).manager.pools@.len(),
        ensures
            final(svc).wf(),
            pools_unchanged_except(
                old(svc).manager.pools@,
                final(svc).manager.pools@,
                self.component as int,
            ),
            pool_meta_unchanged(
                old(svc).manager.pools@[self.component as int],
                final(svc).manager.pools@[self.component as int],
            ),
            match r {
                AssignOutcome::Assigned { key, replenish } => {
                    &&& exists|i: int|
                        {
                            &&& #[trigger] assign_transition(
                                old(svc).manager.pools@[self.component as int].store.keys@,
                                final(svc).manager.pools@[self.component as int].store.keys@,
                                i,
                                now,
                                caller,
                            )
                            &&& key.keyBlob@ == old(svc).manager.pools@[self.component
                                as int].store.keys@[i].key_blob@
                            &&& key.encodedCertChain@ == old(svc).manager.pools@[self.component
                                as int].store.keys@[i].cert_chain@
                        }
                    &&& (replenish is Some) <==> count_eligible(
                        final(svc).manager.pools@[self.component as int].store.keys@,
                        now,
                    ) < old(svc).manager.pools@[self.component as int].low_watermark
                    &&& match replenish {
                        Some(a) => trigger_transition(
                            old(svc).coordinator.tickets@,
                            final(svc).coordinator.tickets@,
                            self.component,
                            a is Start,
                        ),
                        None => final(svc).coordinator.tickets@ == old(svc).coordinator.tickets@,
                    }
                },
                AssignOutcome::Pending { action } => {
                    &&& count_eligible(
                        old(svc).manager.pools@[self.component as int].store.keys@,
                        now,
                    ) == 0
                    &&& final(svc).manager.pools@ == old(svc).manager.pools@
                    &&& trigger_transition(
                        old(svc).coordinator.tickets@,
                        final(svc).coordinator.tickets@,
                        self.component,
                        action is Start,
                    )
                    &&& action matches FetchAction::Start { num_keys } ==> num_keys == old(
                        svc,
                    ).manager.pools@[self.component as int].low_watermark
                },
            },
            (r is Assigned) <==> count_eligible(
                old(svc).manager.pools@[self.component as int].store.keys@,
                now,
            ) > 0,
    {
        let comp = self.component;
        let wm = svc.manager.pools[comp].low_watermark;
        match svc.manager.assign_key(comp, now, caller) {
            Ok(k) => {
                let low = svc.manager.below_watermark(comp, now);
                let replenish = if low {
                    Some(svc.coordinator.ensure_replenished(comp, wm))
                } else {
                    None
                };
                AssignOutcome::Assigned {
                    key: RemotelyProvisionedKey {
                        keyBlob: k.key_blob,
                        encodedCertChain: k.cert_chain,
                    },
                    replenish,
                }
            },
            Err(_) => {
                let action = svc.coordinator.ensure_replenished(comp, wm);
                AssignOutcome::Pending { action }
            },
        }
    }

    /// Retries assignment once after a wait on replenishment: a timed-out
    /// wait fails with `Timeout` and changes nothing; after a completed wait
    /// the pool is tried once more and exhaustion is final.
    pub fn finish_assignment(
        &self,
        svc: &mut MyRegistrar,
        now: u64,
        caller: u64,
        wait: WaitOutcome,
    ) -> (r: Result<RemotelyProvisionedKey, PoolError>)
        requires
            old(svc).wf(),
            self.component < old(svc).manager.pools@.len(),
        ensures
            final(svc).wf(),
            final(svc).coordinator.tickets@ == old(svc).coordinator.tickets@,
            pools_unchanged_except(
                old(svc).manager.pools@,
                final(svc).manager.pools@,
                self.component as int,
            ),
            pool_meta_unchanged(
                old(svc).manager.pools@[self.component as int],
                final(svc).manager.pools@[self.component as int],
            ),
            wait == WaitOutcome::TimedOut ==> r == Err::<RemotelyProvisionedKey, PoolError>(
                PoolError::Timeout,
            ) && final(svc).manager.pools@ == old(svc).manager.pools@,
            wait == WaitOutcome::Completed ==> match r {
                Ok(key) => exists|i: int|
                    {
                        &&& #[trigger] assign_transition(
                            old(svc).manager.pools@[self.component as int].store.keys@,
                            final(svc).manager.pools@[self.component as int].store.keys@,
                            i,
                            now,
                            caller,
                        )
                        &&& key.keyBlob@ == old(svc).manager.pools@[self.component
                            as int].store.keys@[i].key_blob@
                        &&& key.encodedCertChain@ == old(svc).manager.pools@[self.component
                            as int].store.keys@[i].cert_chain@
                    },
                Err(e) => {
                    &&& e == PoolError::Exhausted
                    &&& final(svc).manager.pools@ == old(svc).manager.pools@
                    &&& count_eligible(
                        old(svc).manager.pools@[self.component as int].store.keys@,
                        now,
                    ) == 0
                },
            },
            wait == WaitOutcome::Completed ==> ((r is Ok) <==> count_eligible(
                old(svc).manager.pools@[self.component as int].store.keys@,
                now,
            ) > 0),
    {
        match wait {
            WaitOutcome::TimedOut => Err(PoolError::Timeout),
            WaitOutcome::Completed => {
                match svc.manager.assign_key(self.component, now, caller) {
                    Ok(k) => Ok(
                        RemotelyProvisionedKey {
                            keyBlob: k.key_blob,
                            encodedCertChain: k.cert_chain,
                        },
                    ),
                    Err(e) => Err(e),
                }
            },
        }
    }

    /// Upgrades a stored key blob through the pool manager: succeeds exactly
    /// when the key exists and `old_key_blob` matches its stored blob; a
    /// mismatch fails with `NotFound` and never mutates stored state.
    #[allow(non_snake_case)]
    pub fn upgradeKey(&self, svc: &mut MyRegistrar, key_id: i32, old_key_blob: &[u8]) -> (r: Result<
        Vec<u8>,
        PoolError,
    >)
        requires
            old(svc).wf(),
            self.component < old(svc).manager.pools@.len(),
        ensures
            final(svc).wf(),
            final(svc).coordinator.tickets@ == old(svc).coordinator.tickets@,
            pools_unchanged_except(
                old(svc).manager.pools@,
                final(svc).manager.pools@,
                self.component as int,
            ),
            pool_meta_unchanged(
                old(svc).manager.pools@[self.component as int],
                final(svc).manager.pools@[self.component as int],
            ),
            match r {
                Ok(b) => {
                    &&& b@ == upgraded_blob(old_key_blob@)
                    &&& exists|i: int|
                        #[trigger] upgrade_transition(
                            old(svc).manager.pools@[self.component as int].store.keys@,
                            final(svc).manager.pools@[self.component as int].store.keys@,
                            i,
                            key_id,
                            old_key_blob@,
                        )
                },
                Err(e) => {
                    &&& e == PoolError::NotFound
                    &&& final(svc).manager.pools@ == old(svc).manager.pools@
                },
            },
            (r is Ok) <==> exists|i: int|
                0 <= i < old(svc).manager.pools@[self.component as int].store.keys@.len() && (
                #[trigger] old(svc).manager.pools@[self.component as int].store.keys@[i]).key_id
                    == key_id && old(svc).manager.pools@[self.component
                    as int].store.keys@[i].key_blob@ == old_key_blob@,
    {
        svc.manager.upgrade_key(self.component, key_id, old_key_blob)
    }
}

impl MyRefresh {
    /// Sweeps every component at `now`: lapsed live keys are marked expired,
    /// retired keys older than `retention` are deleted, and every pool then
    /// below its threshold gets a replenishment ticket (single-flight). The
    /// sweep itself always succeeds and returns 0; per-component fetch
    /// outcomes are aggregated later through `refresh_status`.
    #[allow(non_snake_case)]
    pub fn refreshData(&self, svc: &mut MyRegistrar, now: u64, retention: u64) -> (r: i32)
        requires
            old(svc).wf(),
        ensures
            final(svc).wf(),
            r == 0,
            final(svc).manager.pools@.len() == old(svc).manager.pools@.len(),
            forall|p: int|
                0 <= p < old(svc).manager.pools@.len() ==> {
                    &&& pool_meta_unchanged(
                        old(svc).manager.pools@[p],
                        #[trigger] final(svc).manager.pools@[p],
                    )
                    &&& final(svc).manager.pools@[p].store.next_key_id == old(
                        svc,
                    ).manager.pools@[p].store.next_key_id
                    &&& final(svc).manager.pools@[p].store.keys@ == retained(
                        marked(old(svc).manager.pools@[p].store.keys@, now),
                        retention_cutoff(now, retention),
                    )
                },
            forall|c: usize|
                c < old(svc).manager.pools@.len() ==> (has_ticket(
                    final(svc).coordinator.tickets@,
                    c,
                ) <==> (has_ticket(old(svc).coordinator.tickets@, c) || count_eligible(
                    final(svc).manager.pools@[c as int].store.keys@,
                    now,
                ) < final(svc).manager.pools@[c as int].low_watermark)),
    {
        let cutoff = if now >= retention {
            now - retention
        } else {
            0
        };
        let n = svc.manager.pool_count();
        let mut comp: usize = 0;
        while comp < n
            invariant
                comp <= n,
                svc.wf(),
                n == svc.manager.pools@.len(),
                n == old(svc).manager.pools@.len(),
                cutoff == retention_cutoff(now, retention),
                forall|p: int|
                    comp <= p < n ==> svc.manager.pools@[p] == old(svc).manager.pools@[p],
                forall|p: int|
                    0 <= p < comp ==> {
                        &&& pool_meta_unchanged(
                            old(svc).manager.pools@[p],
                            #[trigger] svc.manager.pools@[p],
                        )
                        &&& svc.manager.pools@[p].store.next_key_id == old(
                            svc,
                        ).manager.pools@[p].store.next_key_id
                        &&& svc.manager.pools@[p].store.keys@ == retained(
                            marked(old(svc).manager.pools@[p].store.keys@, now),
                            retention_cutoff(now, retention),
                        )
                    },
                forall|c: usize|
                    c < comp ==> (has_ticket(svc.coordinator.tickets@, c) <==> (has_ticket(
                        old(svc).coordinator.tickets@,
                        c,
                    ) || count_eligible(svc.manager.pools@[c as int].store.keys@, now)
                        < svc.manager.pools@[c as int].low_watermark)),
                forall|c: usize|
                    comp <= c ==> (has_ticket(svc.coordinator.tickets@, c) <==> has_ticket(
                        old(svc).coordinator.tickets@,
                        c,
                    )),
            decreases n - comp,
        {
            svc.manager.sweep_pool(comp, now, cutoff);
            let wm = svc.manager.pools[comp].low_watermark;
            if svc.manager.below_watermark(comp, now) {
                let ghost pre_tickets = svc.coordinator.tickets@;
                let a = svc.coordinator.ensure_replenished(comp, wm);
                proof {
                    crate::fetch::lemma_trigger_other_components(
                        pre_tickets,
                        svc.coordinator.tickets@,
                        comp,
                        a is Start,
                    );
                }
            }
            comp = comp + 1;
        }
        0
    }
}

/// Aggregates one sweep's per-component fetch outcomes into the reported
/// status: 0 when nothing failed, the distinct degraded code when a
/// majority of the attempted components failed, else the failure count. A
/// single component's failure never fails the sweep as a whole.
pub fn refresh_status(components: usize, failed: usize) -> (r: i32)
    requires
        failed <= components,
        components <= i32::MAX,
    ensures
        (r == 0) <==> (failed == 0),
        (failed > 0 && 2 * failed > components) ==> r == -1,
        (failed > 0 && 2 * failed <= components) ==> r == failed as i32,
{
    if failed == 0 {
        0
    } else if failed > components / 2 {
        proof {
            assert(2 * failed > components);
        }
        -1
    } else {
        proof {
            assert(2 * failed <= components);
        }
        failed as i32
    }
}

} // verus!

