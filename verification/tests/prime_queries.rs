use primetool::primality::is_prime;
use primetool::queries::{
    closest_prime, list_first, next_prime, nth_with_context, previous_prime, prime_factors, Bias,
};
use primetool::sieve::{Sieve, SieveError};

#[test]
fn is_prime_scenario() {
    assert!(is_prime(17));
    assert!(!is_prime(18));
    assert!(!is_prime(1));
}

#[test]
fn is_prime_small_values() {
    assert!(!is_prime(0));
    assert!(is_prime(2));
    assert!(is_prime(3));
    assert!(!is_prime(4));
    assert!(is_prime(5));
    assert!(!is_prime(9));
    assert!(is_prime(97));
}

#[test]
fn is_prime_large_values() {
    assert!(is_prime(4294967291));
    assert!(!is_prime(4294967295));
    assert!(!is_prime(u64::MAX));
}

#[test]
fn factors_of_360() {
    let mut sieve = Sieve::new();
    assert_eq!(prime_factors(&mut sieve, 360), vec![2, 2, 2, 3, 3, 5]);
}

#[test]
fn factors_below_two_are_empty() {
    let mut sieve = Sieve::new();
    assert_eq!(prime_factors(&mut sieve, 0), Vec::<u64>::new());
    assert_eq!(prime_factors(&mut sieve, 1), Vec::<u64>::new());
}

#[test]
fn factors_of_primes_and_powers() {
    let mut sieve = Sieve::new();
    assert_eq!(prime_factors(&mut sieve, 2), vec![2]);
    assert_eq!(prime_factors(&mut sieve, 97), vec![97]);
    assert_eq!(prime_factors(&mut sieve, 1024), vec![2; 10]);
    assert_eq!(prime_factors(&mut sieve, 2 * 3 * 5 * 7 * 11), vec![2, 3, 5, 7, 11]);
}

#[test]
fn factors_reuse_one_store() {
    let mut sieve = Sieve::new();
    assert_eq!(prime_factors(&mut sieve, 100), vec![2, 2, 5, 5]);
    assert_eq!(prime_factors(&mut sieve, 99), vec![3, 3, 11]);
}

#[test]
fn list_first_five() {
    let mut sieve = Sieve::new();
    assert_eq!(list_first(&mut sieve, 5), Ok(vec![2, 3, 5, 7, 11]));
}

#[test]
fn list_first_zero_is_empty() {
    let mut sieve = Sieve::new();
    assert_eq!(list_first(&mut sieve, 0), Ok(Vec::new()));
}

#[test]
fn next_prime_scenario() {
    let mut sieve = Sieve::new();
    assert_eq!(next_prime(&mut sieve, 14), Ok((7, 17)));
}

#[test]
fn next_prime_is_inclusive() {
    let mut sieve = Sieve::new();
    assert_eq!(next_prime(&mut sieve, 13), Ok((6, 13)));
    assert_eq!(next_prime(&mut sieve, 0), Ok((1, 2)));
    assert_eq!(next_prime(&mut sieve, 2), Ok((1, 2)));
}

#[test]
fn previous_prime_scenario() {
    let mut sieve = Sieve::new();
    assert_eq!(previous_prime(&mut sieve, 14), Ok((6, 13)));
}

#[test]
fn previous_prime_below_three_fails() {
    let mut sieve = Sieve::new();
    assert_eq!(previous_prime(&mut sieve, 2), Err(SieveError::NoSmallerPrime));
    assert_eq!(previous_prime(&mut sieve, 1), Err(SieveError::NoSmallerPrime));
    assert_eq!(previous_prime(&mut sieve, 0), Err(SieveError::NoSmallerPrime));
    assert_eq!(previous_prime(&mut sieve, 3), Ok((1, 2)));
}

#[test]
fn closest_prime_scenario() {
    let mut sieve = Sieve::new();
    assert_eq!(closest_prime(&mut sieve, 14, Bias::Next), Ok((6, 13)));
}

#[test]
fn closest_prime_tie_break() {
    let mut sieve = Sieve::new();
    assert_eq!(closest_prime(&mut sieve, 4, Bias::Next), Ok((3, 5)));
    assert_eq!(closest_prime(&mut sieve, 4, Bias::Previous), Ok((2, 3)));
}

#[test]
fn closest_prime_of_a_prime_is_itself() {
    let mut sieve = Sieve::new();
    assert_eq!(closest_prime(&mut sieve, 13, Bias::Next), Ok((6, 13)));
    assert_eq!(closest_prime(&mut sieve, 13, Bias::Previous), Ok((6, 13)));
}

#[test]
fn closest_prime_below_three_fails() {
    let mut sieve = Sieve::new();
    assert_eq!(closest_prime(&mut sieve, 2, Bias::Next), Err(SieveError::NoSmallerPrime));
}

#[test]
fn nth_with_context_range() {
    let mut sieve = Sieve::new();
    assert_eq!(nth_with_context(&mut sieve, 7, 3), Ok(vec![17, 19, 23]));
    assert_eq!(nth_with_context(&mut sieve, 1, 1), Ok(vec![2]));
    assert_eq!(nth_with_context(&mut sieve, 3, 0), Ok(Vec::new()));
}

#[test]
fn nth_with_context_zero_index_fails() {
    let mut sieve = Sieve::new();
    assert_eq!(nth_with_context(&mut sieve, 0, 1), Err(SieveError::IndexOutOfDomain));
}

#[test]
fn nth_with_context_huge_range_overflows() {
    let mut sieve = Sieve::new();
    assert_eq!(nth_with_context(&mut sieve, usize::MAX, 3), Err(SieveError::DomainOverflow));
}

#[test]
fn extend_to_is_idempotent() {
    let mut sieve = Sieve::new();
    sieve.extend_to(100);
    let primes_after_first = sieve.primes.clone();
    let bound_after_first = sieve.bound;
    sieve.extend_to(100);
    assert_eq!(sieve.primes, primes_after_first);
    assert_eq!(sieve.bound, bound_after_first);
    assert_eq!(bound_after_first, 100);
    assert_eq!(primes_after_first.len(), 25);
}

#[test]
fn extend_to_never_shrinks() {
    let mut sieve = Sieve::new();
    sieve.extend_to(50);
    sieve.extend_to(10);
    assert_eq!(sieve.bound, 50);
    assert_eq!(sieve.primes.len(), 15);
}

#[test]
fn get_indexes_the_prime_sequence() {
    let mut sieve = Sieve::new();
    assert_eq!(sieve.get(0), Ok(2));
    assert_eq!(sieve.get(5), Ok(13));
    assert_eq!(sieve.get(24), Ok(97));
}

#[test]
fn find_at_least_and_at_most() {
    let mut sieve = Sieve::new();
    assert_eq!(sieve.find_at_least(90), Ok((25, 97)));
    assert_eq!(sieve.find_at_most(97), Ok((24, 89)));
    assert_eq!(sieve.find_at_most(3), Ok((1, 2)));
}

#[test]
fn cursor_yields_primes_in_order_and_restarts() {
    let mut sieve = Sieve::new();
    let mut cursor = sieve.iterate();
    assert_eq!(cursor.next(&mut sieve), Ok(2));
    assert_eq!(cursor.next(&mut sieve), Ok(3));
    assert_eq!(cursor.next(&mut sieve), Ok(5));
    let mut fresh = sieve.iterate();
    assert_eq!(fresh.next(&mut sieve), Ok(2));
}
