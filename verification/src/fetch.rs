//! Fetch coordinator: single-flight deduplication of replenishment requests,
//! and the retry policy applied to the provisioning exchange.
//!
//! The network call itself is the hosting process's work: the coordinator
//! decides whether a caller must start a fetch or attach to one already in
//! flight, and records the ticket until the result is applied.

use vstd::prelude::*;

use crate::errors::FetchError;

verus! {

/// One in-flight replenishment request: the component it serves, how many
/// keys it was asked for, and how many callers await its completion.
#[derive(Clone, Copy, PartialEq, Eq, Structural, Debug)]
pub struct FetchTicket {
    pub component: usize,
    pub num_keys: usize,
    pub waiters: u64,
}

/// What a caller that triggered replenishment must do next.
#[derive(Clone, Copy, PartialEq, Eq, Structural, Debug)]
pub enum FetchAction {
    /// No fetch was in flight: this caller holds the new ticket and must
    /// perform the exchange for `num_keys` keys.
    Start { num_keys: usize },
    /// A fetch for the component is already in flight: wait on its ticket.
    Await,
}

/// Deduplicates concurrent replenishment triggers per component.
pub struct FetchCoordinator {
    pub tickets: Vec<FetchTicket>,
}

/// A ticket for `comp` is in flight.
pub open spec fn has_ticket(s: Seq<FetchTicket>, comp: usize) -> bool {
    exists|i: int| 0 <= i < s.len() && (#[trigger] s[i]).component == comp
}

/// At most one ticket per component.
pub open spec fn tickets_unique(s: Seq<FetchTicket>) -> bool {
    forall|i: int, j: int|
        0 <= i < j < s.len() ==> (#[trigger] s[i]).component != (#[trigger] s[j]).component
}

/// One replenishment trigger: when no ticket for `comp` was in flight, a new
/// one is created and the caller starts the fetch (`started`); otherwise the
/// caller joins the existing ticket's waiters. Either way exactly one ticket
/// for `comp` is in flight afterwards and no other component's ticket moves.
pub open spec fn trigger_transition(
    pre: Seq<FetchTicket>,
    post: Seq<FetchTicket>,
    comp: usize,
    started: bool,
) -> bool {
    &&& started == !has_ticket(pre, comp)
    &&& has_ticket(post, comp)
    &&& started ==> post == pre.push(
        FetchTicket { component: comp, num_keys: post.last().num_keys, waiters: 1 },
    )
    &&& !started ==> {
        &&& post.len() == pre.len()
        &&& forall|i: int|
            0 <= i < pre.len() && (#[trigger] pre[i]).component != comp ==> post[i] == pre[i]
        &&& forall|i: int|
            0 <= i < pre.len() && (#[trigger] pre[i]).component == comp ==> post[i].component
                == comp && post[i].num_keys == pre[i].num_keys && post[i].waiters >= pre[i].waiters
    }
}

impl FetchCoordinator {
    /// Well-formedness: at most one in-flight ticket per component.
    pub open spec fn wf(self) -> bool {
        tickets_unique(self.tickets@)
    }

    /// A coordinator with nothing in flight.
    pub fn new() -> (r: FetchCoordinator)
        ensures
            r.wf(),
            r.tickets@.len() == 0,
    {
        FetchCoordinator { tickets: Vec::new() }
    }

    /// Index of the in-flight ticket for `comp`, if any.
    pub fn find_ticket(&self, comp: usize) -> (r: Option<usize>)
        ensures
            match r {
                Some(i) => i < self.tickets@.len() && self.tickets@[i as int].component == comp,
                None => !has_ticket(self.tickets@, comp),
            },
            (r is Some) <==> has_ticket(self.tickets@, comp),
    {
        let mut i: usize = 0;
        while i < self.tickets.len()
            invariant
                i <= self.tickets@.len(),
                forall|j: int| 0 <= j < i ==> (#[trigger] self.tickets@[j]).component != comp,
            decreases self.tickets@.len() - i,
        {
            if self.tickets[i].component == comp {
                return Some(i);
            }
            i = i + 1;
        }
        None
    }

    /// Ensures a replenishment for `comp` is in flight: creates a ticket for
    /// `num_keys` keys and tells the caller to start the fetch when none
    /// exists, else attaches the caller as one more waiter on the existing
    /// ticket. For any component, at most one fetch is ever in flight,
    /// however many callers trigger replenishment.
    pub fn ensure_replenished(&mut self, comp: usize, num_keys: usize) -> (a: FetchAction)
        requires
            old(self).wf(),
        ensures
            final(self).wf(),
            trigger_transition(old(self).tickets@, final(self).tickets@, comp, a is Start),
            a == (FetchAction::Start { num_keys }) || a == FetchAction::Await,
            (a is Start) ==> final(self).tickets@.last().num_keys == num_keys,
            forall|i: int|
                0 <= i < final(self).tickets@.len() ==> ((#[trigger] final(self).tickets@[i]).component
                    == comp || (i < old(self).tickets@.len() && final(self).tickets@[i].component
                    == old(self).tickets@[i].component)),
    {
        match self.find_ticket(comp) {
            Some(i) => {
                let t = self.tickets.remove(i);
                let w = if t.waiters < u64::MAX {
                    t.waiters + 1
                } else {
                    t.waiters
                };
                let t2 = FetchTicket { component: t.component, num_keys: t.num_keys, waiters: w };
                self.tickets.insert(i, t2);
                proof {
                    assert(self.tickets@ =~= old(self).tickets@.update(i as int, t2));
                    assert(self.tickets@[i as int].component == comp);
                    assert(has_ticket(self.tickets@, comp));
                }
                FetchAction::Await
            },
            None => {
                let t = FetchTicket { component: comp, num_keys, waiters: 1 };
                self.tickets.push(t);
                proof {
                    assert(self.tickets@.last() == t);
                    assert(has_ticket(self.tickets@, comp));
                }
                FetchAction::Start { num_keys }
            },
        }
    }

    /// Retires the ticket for `comp` once its result has been applied and
    /// signalled; tickets of other components stay in flight.
    pub fn complete(&mut self, comp: usize)
        requires
            old(self).wf(),
        ensures
            final(self).wf(),
            !has_ticket(final(self).tickets@, comp),
            forall|c: usize|
                c != comp ==> (has_ticket(final(self).tickets@, c) <==> has_ticket(
                    old(self).tickets@,
                    c,
                )),
            has_ticket(old(self).tickets@, comp) ==> exists|i: int|
                #![auto]
                0 <= i < old(self).tickets@.len() && old(self).tickets@[i].component == comp
                    && final(self).tickets@ == old(self).tickets@.remove(i),
            !has_ticket(old(self).tickets@, comp) ==> final(self).tickets@ == old(self).tickets@,
    {
        match self.find_ticket(comp) {
            Some(i) => {
                let ghost pre = self.tickets@;
                self.tickets.remove(i);
                proof {
                    assert forall|c: usize| c != comp && has_ticket(pre, c) implies has_ticket(
                        self.tickets@,
                        c,
                    ) by {
                        let j = choose|j: int| 0 <= j < pre.len() && (#[trigger] pre[j]).component == c;
                        if j < i as int {
                            assert(self.tickets@[j].component == c);
                        } else {
                            assert(self.tickets@[j - 1].component == c);
                        }
                    }
                    assert forall|c: usize| has_ticket(self.tickets@, c) implies has_ticket(
                        pre,
                        c,
                    ) by {
                        let j = choose|j: int|
                            0 <= j < self.tickets@.len() && (#[trigger] self.tickets@[j]).component
                                == c;
                        if j < i as int {
                            assert(pre[j].component == c);
                        } else {
                            assert(pre[j + 1].component == c);
                        }
                    }
                    assert(!has_ticket(self.tickets@, comp));
                    assert(pre == old(self).tickets@);
                    assert(0 <= (i as int) && (i as int) < old(self).tickets@.len());
                    assert(old(self).tickets@[i as int].component == comp);
                    assert(self.tickets@ == old(self).tickets@.remove(i as int));
                }
            },
            None => {
                proof {
                    assert(self.tickets@ == old(self).tickets@);
                }
            },
        }
    }
}

/// A replenishment trigger for one component leaves every other component's
/// in-flight status untouched, and leaves the triggering component covered.
pub proof fn lemma_trigger_other_components(
    pre: Seq<FetchTicket>,
    post: Seq<FetchTicket>,
    comp: usize,
    started: bool,
)
    requires
        trigger_transition(pre, post, comp, started),
    ensures
        has_ticket(post, comp),
        forall|c: usize| c != comp ==> (has_ticket(post, c) <==> has_ticket(pre, c)),
{
    assert forall|c: usize| c != comp implies (has_ticket(post, c) <==> has_ticket(pre, c)) by {
        if started {
            if has_ticket(pre, c) {
                let j = choose|j: int| 0 <= j < pre.len() && (#[trigger] pre[j]).component == c;
                assert(post[j].component == c);
            }
            if has_ticket(post, c) {
                let j = choose|j: int| 0 <= j < post.len() && (#[trigger] post[j]).component == c;
                assert(j < pre.len());
                assert(pre[j].component == c);
            }
        } else {
            if has_ticket(pre, c) {
                let j = choose|j: int| 0 <= j < pre.len() && (#[trigger] pre[j]).component == c;
                assert(post[j].component == c);
            }
            if has_ticket(post, c) {
                let j = choose|j: int| 0 <= j < post.len() && (#[trigger] post[j]).component == c;
                if pre[j].component == comp {
                    assert(post[j].component == comp);
                } else {
                    assert(post[j] == pre[j]);
                }
            }
        }
    }
}

/// One network attempt failed with `e` after `attempt` tries so far: retry
/// exactly when the failure is transient and the bound is not yet reached.
/// Server rejection and malformed responses propagate immediately.
pub fn should_retry(e: FetchError, attempt: u32, max_attempts: u32) -> (r: bool)
    ensures
        r == (e == FetchError::Network && attempt + 1 < max_attempts),
{
    match e {
        FetchError::Network => attempt < u32::MAX && attempt + 1 < max_attempts,
        FetchError::Rejected => false,
        FetchError::Malformed => false,
    }
}

/// The exponential backoff delay: `base_ms` doubled per attempt, clamped to
/// `cap_ms`.
pub open spec fn backoff_spec(base_ms: u64, attempt: u32, cap_ms: u64) -> u64
    decreases attempt,
{
    if attempt == 0 {
        if base_ms > cap_ms {
            cap_ms
        } else {
            base_ms
        }
    } else {
        let prev = backoff_spec(base_ms, (attempt - 1) as u32, cap_ms);
        if 2 * (prev as int) > cap_ms {
            cap_ms
        } else {
            (2 * prev) as u64
        }
    }
}

/// Delay before retry number `attempt`, by bounded exponential backoff.
pub fn backoff_delay_ms(base_ms: u64, attempt: u32, cap_ms: u64) -> (r: u64)
    ensures
        r == backoff_spec(base_ms, attempt, cap_ms),
        r <= cap_ms,
{
    let mut d: u64 = if base_ms > cap_ms {
        cap_ms
    } else {
        base_ms
    };
    let mut k: u32 = 0;
    while k < attempt
        invariant
            k <= attempt,
            d == backoff_spec(base_ms, k, cap_ms),
            d <= cap_ms,
        decreases attempt - k,
    {
        let doubled = if d <= u64::MAX / 2 {
            d * 2
        } else {
            u64::MAX
        };
        d = if doubled > cap_ms {
            cap_ms
        } else {
            doubled
        };
        k = k + 1;
    }
    d
}

} // verus!
