use lister::clock::seconds_on;
use lister::pool::{worker_threads, worker_threads_for, MAX_WORKERS};

#[test]
fn pool_is_half_the_processors() {
    assert_eq!(worker_threads_for(2), 1);
    assert_eq!(worker_threads_for(3), 1);
    assert_eq!(worker_threads_for(4), 2);
    assert_eq!(worker_threads_for(5), 2);
    assert_eq!(worker_threads_for(6), 3);
    assert_eq!(worker_threads_for(7), 3);
}

#[test]
fn pool_is_capped_at_four() {
    assert_eq!(MAX_WORKERS, 4);
    assert_eq!(worker_threads_for(8), 4);
    assert_eq!(worker_threads_for(9), 4);
    assert_eq!(worker_threads_for(64), 4);
    assert_eq!(worker_threads_for(usize::MAX), 4);
}

#[test]
fn pool_of_a_single_processor_is_empty() {
    assert_eq!(worker_threads_for(0), 0);
    assert_eq!(worker_threads_for(1), 0);
}

#[test]
fn pool_on_this_machine_is_within_the_cap() {
    let threads = worker_threads();
    assert!(threads <= MAX_WORKERS);
}

#[test]
fn clock_after_the_epoch_reads_its_seconds() {
    assert_eq!(seconds_on(Some(0)), 0);
    assert_eq!(seconds_on(Some(1)), 1);
    assert_eq!(seconds_on(Some(1_700_000_000)), 1_700_000_000);
    assert_eq!(seconds_on(Some(u64::MAX)), u64::MAX);
}

#[test]
fn clock_before_the_epoch_reads_zero() {
    assert_eq!(seconds_on(None), 0);
}
