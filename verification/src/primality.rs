//! Primality: the mathematical definition of a prime number, a verified
//! trial-division test, and the divisor lemmas the rest of the crate
//! builds on.

use vstd::prelude::*;
use vstd::arithmetic::div_mod::lemma_fundamental_div_mod;
use vstd::arithmetic::div_mod::lemma_mod_multiples_basic;

verus! {

/// A number is prime when it is at least 2 and no integer in [2, n)
/// divides it.
pub open spec fn spec_is_prime(n: int) -> bool {
    n >= 2 && forall|d: int| 2 <= d < n ==> #[trigger] (n % d) != 0
}

/// For positive `d`, comparing `d` with the truncated quotient `n / d` is
/// the same as comparing `d * d` with `n`.
pub proof fn lemma_div_square(n: int, d: int)
    requires
        0 <= n,
        1 <= d,
    ensures
        d <= n / d <==> d * d <= n,
{
    lemma_fundamental_div_mod(n, d);
    assert(d <= n / d ==> d * d <= n) by (nonlinear_arith)
        requires
            1 <= d,
            n == d * (n / d) + n % d,
            0 <= n % d,
    ;
    assert(d * d <= n ==> d <= n / d) by (nonlinear_arith)
        requires
            1 <= d,
            n == d * (n / d) + n % d,
            n % d < d,
    ;
}

/// A composite number `n` has a divisor `e` with `e * e <= n`: if `n = d * q`
/// with both parts at least 2, the smaller part is at most the square root.
proof fn lemma_composite_has_small_divisor(n: int)
    requires
        n >= 2,
        !spec_is_prime(n),
    ensures
        exists|e: int| 2 <= e && e * e <= n && #[trigger] (n % e) == 0,
{
    let d = choose|d: int| 2 <= d < n && #[trigger] (n % d) == 0;
    lemma_fundamental_div_mod(n, d);
    let q = n / d;
    assert(n == d * q);
    assert(q >= 2) by (nonlinear_arith)
        requires
            2 <= d < n,
            n == d * q,
    ;
    lemma_mod_multiples_basic(d, q);
    assert((d * q) % q == 0);
    assert(n % q == 0);
    if d * d <= n {
        assert(2 <= d && d * d <= n && n % d == 0);
    } else {
        assert(q * q <= n) by (nonlinear_arith)
            requires
                2 <= d,
                2 <= q,
                n == d * q,
                d * d > n,
        ;
        assert(2 <= q && q * q <= n && n % q == 0);
    }
}

/// Trial division over all integers `d` with `d * d <= n` decides
/// primality: a composite number always has such a small divisor.
pub proof fn lemma_trial_division_sqrt(n: int)
    requires
        n >= 2,
    ensures
        spec_is_prime(n) <==> (forall|d: int| 2 <= d && #[trigger] (d * d) <= n ==> n % d != 0),
{
    if spec_is_prime(n) {
        assert forall|d: int| 2 <= d && #[trigger] (d * d) <= n implies n % d != 0 by {
            assert(d < n) by (nonlinear_arith)
                requires
                    2 <= d,
                    d * d <= n,
            ;
        }
    } else {
        lemma_composite_has_small_divisor(n);
        let e = choose|e: int| 2 <= e && e * e <= n && #[trigger] (n % e) == 0;
        assert(e * e <= n);
    }
}

/// Divisibility is transitive: when `a` divides `b` and `b` divides `c`,
/// `a` divides `c`.
pub proof fn lemma_divides_transitive(a: int, b: int, c: int)
    requires
        1 <= a,
        1 <= b,
        b % a == 0,
        c % b == 0,
    ensures
        c % a == 0,
{
    lemma_fundamental_div_mod(b, a);
    lemma_fundamental_div_mod(c, b);
    let k = b / a;
    let l = c / b;
    assert(c == a * (k * l)) by (nonlinear_arith)
        requires
            b == a * k,
            c == b * l,
    ;
    lemma_mod_multiples_basic(k * l, a);
}

/// Every integer `n >= 2` has a prime divisor no larger than itself.
pub proof fn lemma_has_prime_factor(n: int)
    requires
        n >= 2,
    ensures
        exists|p: int| 2 <= p <= n && spec_is_prime(p) && #[trigger] (n % p) == 0,
    decreases n,
{
    if spec_is_prime(n) {
        vstd::arithmetic::div_mod::lemma_mod_self_0(n);
        assert(2 <= n <= n && spec_is_prime(n) && n % n == 0);
    } else {
        let d = choose|d: int| 2 <= d < n && #[trigger] (n % d) == 0;
        lemma_has_prime_factor(d);
        let p = choose|p: int| 2 <= p <= d && spec_is_prime(p) && #[trigger] (d % p) == 0;
        lemma_divides_transitive(p, d, n);
        assert(2 <= p <= n && spec_is_prime(p) && n % p == 0);
    }
}

/// A composite number `n` has a prime divisor `p` with `p * p <= n`.
pub proof fn lemma_composite_has_small_prime_factor(n: int)
    requires
        n >= 2,
        !spec_is_prime(n),
    ensures
        exists|p: int| 2 <= p && p * p <= n && spec_is_prime(p) && #[trigger] (n % p) == 0,
{
    lemma_composite_has_small_divisor(n);
    let e = choose|e: int| 2 <= e && e * e <= n && #[trigger] (n % e) == 0;
    lemma_has_prime_factor(e);
    let p = choose|p: int| 2 <= p <= e && spec_is_prime(p) && #[trigger] (e % p) == 0;
    lemma_divides_transitive(p, e, n);
    assert(p * p <= n) by (nonlinear_arith)
        requires
            2 <= p <= e,
            e * e <= n,
    ;
    assert(2 <= p && p * p <= n && spec_is_prime(p) && n % p == 0);
}

/// Tests whether `n` is prime by trial division with divisors up to the
/// square root of `n`.
pub fn is_prime(n: u64) -> (r: bool)
    ensures
        r == spec_is_prime(n as int),
{
    if n < 2 {
        return false;
    }
    let mut d: u64 = 2;
    while d <= n / d
        invariant
            2 <= d,
            n >= 2,
            forall|e: int| 2 <= e < d ==> #[trigger] ((n as int) % e) != 0,
        decreases n - d,
    {
        if n % d == 0 {
            proof {
                lemma_div_square(n as int, d as int);
                assert(d < n) by (nonlinear_arith)
                    requires
                        2 <= d,
                        (d as int) * (d as int) <= n as int,
                ;
            }
            return false;
        }
        proof {
            lemma_div_square(n as int, d as int);
            assert(2 * d <= n) by (nonlinear_arith)
                requires
                    2 <= d,
                    (d as int) * (d as int) <= n as int,
            ;
        }
        d = d + 1;
    }
    proof {
        lemma_div_square(n as int, d as int);
        if !spec_is_prime(n as int) {
            lemma_composite_has_small_divisor(n as int);
            let e = choose|e: int| 2 <= e && e * e <= n && #[trigger] ((n as int) % e) == 0;
            assert(e < d) by (nonlinear_arith)
                requires
                    2 <= e,
                    1 <= d,
                    e * e <= n as int,
                    (d as int) * (d as int) > n as int,
            ;
        }
    }
    true
}

} // verus!
