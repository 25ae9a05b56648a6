use rkpd::errors::FetchError;
use rkpd::fetch::{FetchAction, FetchCoordinator};
use rkpd::keys::KeyState;
use rkpd::session::{AssignOutcome, MyRefresh, MyRegistrar, WaitOutcome};

#[test]
fn scenario_first_assignment_triggers_fetch() {
    let mut svc = MyRegistrar::new();
    let reg = svc.getRegistration("default", false);
    // the pool starts with 0 keys and a low watermark of 5
    let outcome = reg.getRemotelyProvisionedKey(&mut svc, 0, 100, 7);
    let num = match outcome {
        AssignOutcome::Pending { action: FetchAction::Start { num_keys } } => num_keys,
        _ => panic!("an empty pool must start a fetch"),
    };
    assert_eq!(num, 5);
    // the provisioning exchange returns 5 chains for 5 generated key pairs
    let mut blobs: Vec<Vec<u8>> = Vec::new();
    let mut chains: Vec<Vec<u8>> = Vec::new();
    for i in 0..5u8 {
        blobs.push(vec![i; 16]);
        chains.push(vec![0xC0, i]);
    }
    svc.complete_fetch(reg.component, Ok((blobs, chains)), 10_000).unwrap();
    let key = reg
        .finish_assignment(&mut svc, 100, 7, WaitOutcome::Completed)
        .unwrap();
    assert_eq!(key.keyBlob.len(), 16);
    assert_eq!(key.encodedCertChain.len(), 2);
    // the pool now holds 4 unassigned keys and 1 assigned key
    assert_eq!(svc.manager.count_eligible_keys(reg.component, 100), 4);
    let pool = &svc.manager.pools[reg.component];
    assert_eq!(pool.store.keys.len(), 5);
    let mut assigned = 0;
    let mut unassigned = 0;
    for k in &pool.store.keys {
        if k.state == KeyState::Assigned {
            assigned += 1;
        }
        if k.state == KeyState::Unassigned {
            unassigned += 1;
        }
    }
    assert_eq!(assigned, 1);
    assert_eq!(unassigned, 4);
}

#[test]
fn scenario_race_on_last_key() {
    let mut svc = MyRegistrar::new();
    let reg = svc.getRegistration("default", false);
    svc.manager
        .insert_batch(reg.component, vec![vec![1u8, 2, 3]], vec![vec![9u8]], 1_000);
    // two callers contend for the single unassigned key: one gets it
    let first = reg.getRemotelyProvisionedKey(&mut svc, 0, 10, 1);
    let first_key = match first {
        AssignOutcome::Assigned { key, replenish } => {
            // the pool fell below its watermark: a fetch was started
            assert_eq!(replenish, Some(FetchAction::Start { num_keys: 5 }));
            key
        }
        AssignOutcome::Pending { .. } => panic!("the single key was available"),
    };
    assert_eq!(first_key.keyBlob, vec![1u8, 2, 3]);
    // the loser joins the fetch already in flight
    let second = reg.getRemotelyProvisionedKey(&mut svc, 0, 10, 2);
    match second {
        AssignOutcome::Pending { action } => assert_eq!(action, FetchAction::Await),
        AssignOutcome::Assigned { .. } => panic!("the key must not be issued twice"),
    }
    // replenishment also fails: the loser ends exhausted
    let r = svc.complete_fetch(reg.component, Err(FetchError::Network), 0);
    assert_eq!(r, Err(FetchError::Network));
    match reg.finish_assignment(&mut svc, 10, 2, WaitOutcome::Completed) {
        Err(e) => assert_eq!(e, rkpd::errors::PoolError::Exhausted),
        Ok(_) => panic!("no key was left to assign"),
    }
}

#[test]
fn concurrent_triggers_start_one_fetch() {
    let mut coord = FetchCoordinator::new();
    let mut starts = 0;
    for _ in 0..4 {
        match coord.ensure_replenished(3, 5) {
            FetchAction::Start { num_keys } => {
                assert_eq!(num_keys, 5);
                starts += 1;
            }
            FetchAction::Await => {}
        }
    }
    assert_eq!(starts, 1, "exactly one exchange per component may be in flight");
    assert_eq!(coord.tickets.len(), 1);
    assert_eq!(coord.tickets[0].waiters, 4);
    coord.complete(3);
    assert_eq!(coord.tickets.len(), 0);
    // once the ticket is retired a new trigger starts a fresh exchange
    match coord.ensure_replenished(3, 2) {
        FetchAction::Start { num_keys } => assert_eq!(num_keys, 2),
        FetchAction::Await => panic!("no ticket was in flight any more"),
    }
}

#[test]
fn tickets_are_per_component() {
    let mut coord = FetchCoordinator::new();
    assert!(matches!(coord.ensure_replenished(0, 5), FetchAction::Start { .. }));
    assert!(matches!(coord.ensure_replenished(1, 5), FetchAction::Start { .. }));
    assert!(matches!(coord.ensure_replenished(0, 5), FetchAction::Await));
    coord.complete(0);
    assert!(matches!(coord.ensure_replenished(0, 5), FetchAction::Start { .. }));
    assert!(matches!(coord.ensure_replenished(1, 5), FetchAction::Await));
}

#[test]
fn malformed_response_leaves_store_unchanged() {
    let mut svc = MyRegistrar::new();
    let reg = svc.getRegistration("default", false);
    svc.coordinator.ensure_replenished(reg.component, 2);
    // two blobs but only one chain: the batch fails validation
    let r = svc.complete_fetch(
        reg.component,
        Ok((vec![vec![1u8], vec![2u8]], vec![vec![3u8]])),
        500,
    );
    assert_eq!(r, Err(FetchError::Malformed));
    assert_eq!(svc.manager.pools[reg.component].store.keys.len(), 0);
    // and the ticket was retired with the failure
    assert_eq!(svc.coordinator.tickets.len(), 0);
}

#[test]
fn sweep_marks_purges_and_replenishes() {
    let mut svc = MyRegistrar::new();
    let reg = svc.getRegistration("default", false);
    svc.manager
        .insert_batch(reg.component, vec![vec![1u8]], vec![vec![1u8]], 10);
    svc.manager
        .insert_batch(reg.component, vec![vec![2u8]], vec![vec![2u8]], 1_000);
    let refresh = MyRefresh {};
    // at time 500 with a 100-long retention window: the key that lapsed at 10
    // is marked expired and, being past the cutoff of 400, deleted
    let status = refresh.refreshData(&mut svc, 500, 100);
    assert_eq!(status, 0);
    let pool = &svc.manager.pools[reg.component];
    assert_eq!(pool.store.keys.len(), 1);
    assert_eq!(pool.store.keys[0].key_blob, vec![2u8]);
    assert!(pool.store.keys[0].state == KeyState::Unassigned);
    // the pool is below its watermark, so a replenishment ticket is in flight
    assert_eq!(svc.coordinator.tickets.len(), 1);
    assert_eq!(svc.coordinator.tickets[0].component, reg.component);
}

#[test]
fn recent_expired_key_is_kept_until_retention_passes() {
    let mut svc = MyRegistrar::new();
    let reg = svc.getRegistration("default", false);
    svc.manager
        .insert_batch(reg.component, vec![vec![1u8]], vec![vec![1u8]], 450);
    let refresh = MyRefresh {};
    refresh.refreshData(&mut svc, 500, 100);
    // lapsed at 450, cutoff is 400: marked expired but retained
    let pool = &svc.manager.pools[reg.component];
    assert_eq!(pool.store.keys.len(), 1);
    assert!(pool.store.keys[0].state == KeyState::Expired);
}
