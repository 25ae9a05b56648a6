use rkpd::errors::{FetchError, PoolError, StoreError};
use rkpd::fetch::{backoff_delay_ms, should_retry};
use rkpd::errors::pool_error_of_store;
use rkpd::keys::{bytes_eq, clone_bytes};
use rkpd::session::refresh_status;

#[test]
fn backoff_doubles_and_caps() {
    assert_eq!(backoff_delay_ms(100, 0, 10_000), 100);
    assert_eq!(backoff_delay_ms(100, 1, 10_000), 200);
    assert_eq!(backoff_delay_ms(100, 3, 10_000), 800);
    assert_eq!(backoff_delay_ms(100, 7, 10_000), 10_000);
    assert_eq!(backoff_delay_ms(100, 63, 10_000), 10_000);
    assert_eq!(backoff_delay_ms(20_000, 0, 10_000), 10_000);
    assert_eq!(backoff_delay_ms(0, 5, 10_000), 0);
}

#[test]
fn retry_only_transient_network_failures() {
    assert!(should_retry(FetchError::Network, 0, 3));
    assert!(should_retry(FetchError::Network, 1, 3));
    assert!(!should_retry(FetchError::Network, 2, 3));
    assert!(!should_retry(FetchError::Rejected, 0, 3));
    assert!(!should_retry(FetchError::Malformed, 0, 3));
}

#[test]
fn refresh_status_codes() {
    assert_eq!(refresh_status(4, 0), 0);
    assert_eq!(refresh_status(4, 1), 1);
    assert_eq!(refresh_status(4, 2), 2);
    assert_eq!(refresh_status(4, 3), -1);
    assert_eq!(refresh_status(5, 3), -1);
    assert_eq!(refresh_status(0, 0), 0);
}

#[test]
fn store_failures_surface_as_exhaustion() {
    assert_eq!(pool_error_of_store(StoreError::IoFailure), PoolError::Exhausted);
    assert_eq!(pool_error_of_store(StoreError::Corrupt), PoolError::Exhausted);
}

#[test]
fn byte_helpers_copy_and_compare() {
    let v = vec![1u8, 2, 3];
    let c = clone_bytes(&v);
    assert_eq!(c, v);
    assert!(bytes_eq(&v, &c));
    assert!(!bytes_eq(&v, &[1u8, 2]));
    assert!(!bytes_eq(&v, &[1u8, 2, 4]));
    assert!(bytes_eq(&[], &[]));
}
