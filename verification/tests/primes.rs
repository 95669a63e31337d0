use parallel_worker::primes::{parallel_prime_total, worker_function};

#[test]
fn counts_primes_up_to_n() {
    assert_eq!(worker_function(1), 0);
    assert_eq!(worker_function(2), 1);
    assert_eq!(worker_function(3), 2);
    assert_eq!(worker_function(4), 2);
    assert_eq!(worker_function(10), 4);
    assert_eq!(worker_function(25), 9);
    assert_eq!(worker_function(100), 25);
    assert_eq!(worker_function(1000), 168);
    assert_eq!(worker_function(7919), 1000);
}

#[test]
fn parallel_total_matches_sequential_sum() {
    let n = 500u64;
    let sequential: u64 = (1..=n).map(worker_function).sum();
    assert_eq!(parallel_prime_total(n), sequential);
    assert_eq!(parallel_prime_total(10), 0 + 1 + 2 + 2 + 3 + 3 + 4 + 4 + 4 + 4);
    assert_eq!(parallel_prime_total(0), 0);
}
