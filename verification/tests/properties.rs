use primetool::primality::is_prime;
use primetool::queries::{list_first, prime_factors};
use primetool::sieve::Sieve;

/// Reference check: trial division by every integer in [2, n).
fn divisible_by_none_below(n: u64) -> bool {
    n >= 2 && (2..n).all(|d| n % d != 0)
}

#[test]
fn primality_matches_trial_division() {
    for n in 0..200u64 {
        assert_eq!(is_prime(n), divisible_by_none_below(n), "disagreement at {}", n);
    }
}

#[test]
fn factorizations_multiply_back() {
    let mut sieve = Sieve::new();
    for n in 2..200u64 {
        let factors = prime_factors(&mut sieve, n);
        let product: u64 = factors.iter().product();
        assert_eq!(product, n);
        for f in &factors {
            assert!(is_prime(*f));
        }
        for w in factors.windows(2) {
            assert!(w[0] <= w[1]);
        }
    }
}

#[test]
fn listed_primes_are_consecutive() {
    let mut sieve = Sieve::new();
    let primes = list_first(&mut sieve, 25).unwrap();
    assert_eq!(primes.len(), 25);
    assert_eq!(primes[0], 2);
    for p in &primes {
        assert!(is_prime(*p));
    }
    for w in primes.windows(2) {
        assert!(w[0] < w[1]);
        for between in w[0] + 1..w[1] {
            assert!(!is_prime(between));
        }
    }
}

#[test]
fn find_at_least_returns_the_minimal_prime() {
    for x in 0..100u64 {
        let mut sieve = Sieve::new();
        let (_, p) = sieve.find_at_least(x).unwrap();
        assert!(p >= x);
        assert!(is_prime(p));
        for q in x..p {
            assert!(!is_prime(q));
        }
    }
}

#[test]
fn find_at_most_returns_the_maximal_prime() {
    for x in 3..100u64 {
        let mut sieve = Sieve::new();
        let (_, p) = sieve.find_at_most(x).unwrap();
        assert!(p < x);
        assert!(is_prime(p));
        for q in p + 1..x {
            assert!(!is_prime(q));
        }
    }
}
