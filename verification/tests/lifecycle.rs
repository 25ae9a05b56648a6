use rkpd::errors::PoolError;
use rkpd::fetch::FetchAction;
use rkpd::keys::KeyState;
use rkpd::pool::UPGRADE_MARKER;
use rkpd::session::{AssignOutcome, MyRefresh, MyRegistrar, WaitOutcome};
use rkpd::store::ComponentStore;

#[test]
fn test_function() {
    let mut registrar_service = MyRegistrar::new();
    let value = registrar_service.getRegistration("some remotely provisioned component", true);
    let _b = value.getRemotelyProvisionedKey(&mut registrar_service, 123123, 0, 1);
    let _c = value.upgradeKey(&mut registrar_service, 123123, &[0; 32]);
    let refresh_service = MyRefresh {};
    let _d = refresh_service.refreshData(&mut registrar_service, 0, 0);
}

#[test]
fn insert_then_get_roundtrip() {
    let mut store = ComponentStore::new();
    let blobs = vec![vec![1u8, 2, 3], vec![4u8, 5]];
    let chains = vec![vec![0xC0u8, 1], vec![0xC0u8, 2]];
    let first_id = store.insert_batch(blobs, chains, 900);
    assert_eq!(first_id, 0);
    let k0 = store.get(0).unwrap();
    assert_eq!(k0.key_blob, vec![1u8, 2, 3]);
    assert_eq!(k0.cert_chain, vec![0xC0u8, 1]);
    assert_eq!(k0.expiry_time, 900);
    assert!(k0.state == KeyState::Unassigned);
    let k1 = store.get(1).unwrap();
    assert_eq!(k1.key_blob, vec![4u8, 5]);
    assert_eq!(k1.cert_chain, vec![0xC0u8, 2]);
    assert!(store.get(2).is_none());
}

#[test]
fn compare_and_swap_rejects_stale_state() {
    let mut store = ComponentStore::new();
    store.insert_batch(vec![vec![1u8]], vec![vec![1u8]], 100);
    // one caller wins the race for the key
    store
        .set_state(0, KeyState::Unassigned, KeyState::Assigned, Some(1))
        .unwrap();
    // the loser's expectation is stale: the swap fails and changes nothing
    let r = store.set_state(0, KeyState::Unassigned, KeyState::Assigned, Some(2));
    assert_eq!(r, Err(PoolError::StateMismatch));
    let k = store.get(0).unwrap();
    assert!(k.state == KeyState::Assigned);
    assert_eq!(k.assigned_caller, Some(1));
}

#[test]
fn list_filters_by_state() {
    let mut svc = MyRegistrar::new();
    let reg = svc.getRegistration("default", false);
    svc.manager.insert_batch(
        reg.component,
        vec![vec![1u8], vec![2u8], vec![3u8]],
        vec![vec![1u8], vec![2u8], vec![3u8]],
        1_000,
    );
    reg.getRemotelyProvisionedKey(&mut svc, 0, 10, 1);
    let pool = &svc.manager.pools[reg.component];
    assert_eq!(pool.store.list(KeyState::Assigned), vec![0]);
    assert_eq!(pool.store.list(KeyState::Unassigned), vec![1, 2]);
    assert_eq!(pool.store.list(KeyState::Expired), Vec::<i32>::new());
}

#[test]
fn pool_of_k_keys_serves_exactly_k() {
    let mut svc = MyRegistrar::new();
    let reg = svc.getRegistration("default", false);
    let blobs = vec![vec![10u8], vec![11u8], vec![12u8]];
    let chains = vec![vec![1u8], vec![2u8], vec![3u8]];
    svc.manager.insert_batch(reg.component, blobs, chains, 1_000);

    let mut issued: Vec<Vec<u8>> = Vec::new();
    for caller in 0..3u64 {
        match reg.getRemotelyProvisionedKey(&mut svc, 0, 10, caller) {
            AssignOutcome::Assigned { key, .. } => issued.push(key.keyBlob),
            AssignOutcome::Pending { .. } => panic!("pool should still hold a key"),
        }
    }
    for a in 0..issued.len() {
        for b in (a + 1)..issued.len() {
            assert_ne!(issued[a], issued[b], "one key was issued twice");
        }
    }
    match reg.getRemotelyProvisionedKey(&mut svc, 0, 10, 9) {
        AssignOutcome::Pending { .. } => {}
        AssignOutcome::Assigned { .. } => panic!("fourth assignment must not find a key"),
    }
    let done = svc.complete_fetch(reg.component, Err(rkpd::errors::FetchError::Rejected), 0);
    assert_eq!(done, Err(rkpd::errors::FetchError::Rejected));
    match reg.finish_assignment(&mut svc, 10, 9, WaitOutcome::Completed) {
        Err(e) => assert_eq!(e, PoolError::Exhausted),
        Ok(_) => panic!("exhausted pool must not assign"),
    }
}

#[test]
fn oldest_expiry_is_assigned_first() {
    let mut svc = MyRegistrar::new();
    let reg = svc.getRegistration("default", false);
    let mut store_blobs = Vec::new();
    let mut store_chains = Vec::new();
    store_blobs.push(vec![70u8]);
    store_chains.push(vec![0u8]);
    svc.manager.insert_batch(reg.component, store_blobs, store_chains, 5_000);
    svc.manager
        .insert_batch(reg.component, vec![vec![71u8]], vec![vec![0u8]], 2_000);
    match reg.getRemotelyProvisionedKey(&mut svc, 0, 10, 1) {
        AssignOutcome::Assigned { key, .. } => assert_eq!(key.keyBlob, vec![71u8]),
        AssignOutcome::Pending { .. } => panic!("a key was available"),
    }
}

#[test]
fn upgrade_with_mismatched_blob_fails_and_preserves_state() {
    let mut svc = MyRegistrar::new();
    let reg = svc.getRegistration("default", false);
    svc.manager
        .insert_batch(reg.component, vec![vec![7u8, 7]], vec![vec![1u8]], 100);
    let r = reg.upgradeKey(&mut svc, 0, &[8u8, 8]);
    match r {
        Err(e) => assert_eq!(e, PoolError::NotFound),
        Ok(_) => panic!("mismatched blob must not upgrade"),
    }
    let k = svc.manager.get_key(reg.component, 0).unwrap();
    assert_eq!(k.key_blob, vec![7u8, 7]);
    assert_eq!(k.cert_chain, vec![1u8]);
    assert!(k.state == KeyState::Unassigned);

    let upgraded = reg.upgradeKey(&mut svc, 0, &[7u8, 7]).unwrap();
    assert_eq!(upgraded, vec![7u8, 7, UPGRADE_MARKER]);
    let k = svc.manager.get_key(reg.component, 0).unwrap();
    assert_eq!(k.key_blob, vec![7u8, 7, UPGRADE_MARKER]);
    assert_eq!(k.cert_chain, vec![1u8]);
    assert!(k.state == KeyState::Unassigned);

    let missing = reg.upgradeKey(&mut svc, 99, &[7u8, 7]);
    match missing {
        Err(e) => assert_eq!(e, PoolError::NotFound),
        Ok(_) => panic!("unknown key must not upgrade"),
    }
}

#[test]
fn expired_key_is_never_assigned() {
    let mut svc = MyRegistrar::new();
    let reg = svc.getRegistration("default", false);
    svc.manager
        .insert_batch(reg.component, vec![vec![3u8]], vec![vec![4u8]], 50);
    assert_eq!(svc.manager.count_eligible_keys(reg.component, 50), 0);
    match reg.getRemotelyProvisionedKey(&mut svc, 0, 50, 1) {
        AssignOutcome::Pending { action } => assert_eq!(action, FetchAction::Start { num_keys: 5 }),
        AssignOutcome::Assigned { .. } => panic!("expired key was assigned"),
    }
    // the key is still present until the sweep marks it
    let k = svc.manager.get_key(reg.component, 0).unwrap();
    assert!(k.state == KeyState::Unassigned);
    let refresh = MyRefresh {};
    svc.complete_fetch(reg.component, Err(rkpd::errors::FetchError::Network), 0)
        .unwrap_err();
    let status = refresh.refreshData(&mut svc, 60, 1_000);
    assert_eq!(status, 0);
    let k = svc.manager.get_key(reg.component, 0).unwrap();
    assert!(k.state == KeyState::Expired);
    assert!(k.assigned_caller.is_none());
}

#[test]
fn timed_out_wait_reports_timeout() {
    let mut svc = MyRegistrar::new();
    let reg = svc.getRegistration("default", false);
    match reg.finish_assignment(&mut svc, 0, 1, WaitOutcome::TimedOut) {
        Err(e) => assert_eq!(e, PoolError::Timeout),
        Ok(_) => panic!("a timed-out wait must not assign"),
    }
}

#[test]
fn registration_is_bound_per_component() {
    let mut svc = MyRegistrar::new();
    let a = svc.getRegistration("widevine", true);
    let b = svc.getRegistration("keymint", false);
    let a_again = svc.getRegistration("widevine", true);
    assert_eq!(a.component, a_again.component);
    assert_ne!(a.component, b.component);
    assert!(a.is_rkp_only);
    assert!(!b.is_rkp_only);
    assert_eq!(svc.manager.pool_count(), 2);
}
