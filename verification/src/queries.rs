//! The query layer: stateless algorithms over the sieve store —
//! factorization, indexed and ranged enumeration, and next, previous and
//! closest prime searches.

use vstd::prelude::*;
use vstd::pervasive::unreached;
use vstd::arithmetic::div_mod::lemma_fundamental_div_mod;
use vstd::arithmetic::div_mod::lemma_mod_multiples_basic;
use vstd::arithmetic::div_mod::lemma_mod_self_0;
use vstd::arithmetic::div_mod::lemma_small_mod;
use crate::primality::{
    spec_is_prime, lemma_has_prime_factor, lemma_composite_has_small_prime_factor,
    lemma_divides_transitive,
};
use crate::sieve::{Sieve, SieveError, seq_extends, is_next_prime_ge, is_prev_prime};

verus! {

/// The product of a sequence of factors, as an unbounded integer.
pub open spec fn seq_product(s: Seq<u64>) -> int
    decreases s.len(),
{
    if s.len() == 0 {
        1
    } else {
        seq_product(s.drop_last()) * (s.last() as int)
    }
}

/// Appending a factor multiplies the product by it.
proof fn lemma_seq_product_push(s: Seq<u64>, x: u64)
    ensures
        seq_product(s.push(x)) == seq_product(s) * x,
{
    assert(s.push(x).drop_last() =~= s);
}

/// The ordered prime factorization of `n`, with multiplicity: ascending,
/// every element prime, and the product giving back `n`. Empty for
/// `n < 2`, which has no prime factors. Candidate divisors are pulled
/// from the store in increasing order; once the square of the candidate
/// exceeds the remaining cofactor, the cofactor itself is prime.
pub fn prime_factors(sieve: &mut Sieve, n: u64) -> (r: Vec<u64>)
    requires
        old(sieve).wf(),
    ensures
        final(sieve).wf(),
        old(sieve).bound <= final(sieve).bound,
        seq_extends(old(sieve).primes@, final(sieve).primes@),
        n < 2 ==> r@.len() == 0,
        n >= 2 ==> seq_product(r@) == n as int,
        forall|k: int| 0 <= k < r@.len() ==> spec_is_prime(#[trigger] r@[k] as int),
        forall|k1: int, k2: int|
            0 <= k1 <= k2 < r@.len() ==> #[trigger] r@[k1] <= #[trigger] r@[k2],
{
    let mut res: Vec<u64> = Vec::new();
    if n < 2 {
        return res;
    }
    let mut m: u64 = n;
    let mut cur = sieve.iterate();
    while m > 1
        invariant
            sieve.wf(),
            old(sieve).bound <= sieve.bound,
            seq_extends(old(sieve).primes@, sieve.primes@),
            n >= 2,
            1 <= m <= n,
            seq_product(res@) * m == n as int,
            forall|k: int| 0 <= k < res@.len() ==> spec_is_prime(#[trigger] res@[k] as int),
            forall|k1: int, k2: int|
                0 <= k1 <= k2 < res@.len() ==> #[trigger] res@[k1] <= #[trigger] res@[k2],
            cur.pos <= sieve.primes@.len(),
            forall|j: int|
                0 <= j < cur.pos ==> (m as int) % (#[trigger] sieve.primes@[j] as int) != 0,
            m > 1 && res@.len() > 0 ==> exists|k: int|
                0 <= k < cur.pos && res@.last() == #[trigger] sieve.primes@[k],
            m > 1 ==> cur.pos as int <= n as int,
            cur.pos as int <= n as int + 1,
        decreases m, n as int + 1 - cur.pos as int,
    {
        let ghost pre_pos = cur.pos as int;
        let ghost pre_primes = sieve.primes@;
        let p = match cur.next(sieve) {
            Ok(p) => p,
            Err(_) => {
                proof {
                    lemma_has_prime_factor(m as int);
                    let q = choose|q: int|
                        2 <= q <= m as int && spec_is_prime(q) && #[trigger] ((m as int) % q)
                            == 0;
                    assert(sieve.primes@.contains(q as u64));
                    let k = choose|k: int|
                        0 <= k < sieve.primes@.len() && sieve.primes@[k] == q as u64;
                    assert((m as int) % (sieve.primes@[k] as int) != 0);
                    assert(false);
                }
                unreached()
            },
        };
        proof {
            assert(spec_is_prime(p as int));
            // Elements cached before the call kept their places.
            assert(forall|k: int|
                0 <= k < pre_primes.len() ==> pre_primes[k] == #[trigger] sieve.primes@[k]);
            if res@.len() > 0 {
                let k0 = choose|k: int| 0 <= k < pre_pos && res@.last() == #[trigger] pre_primes[k];
                assert(res@.last() == sieve.primes@[k0]);
                assert(sieve.primes@[k0] <= p);
            }
        }
        if p > m / p {
            proof {
                crate::primality::lemma_div_square(m as int, p as int);
                if !spec_is_prime(m as int) {
                    lemma_composite_has_small_prime_factor(m as int);
                    let q = choose|q: int|
                        2 <= q && q * q <= m as int && spec_is_prime(q) && #[trigger] ((
                        m as int) % q) == 0;
                    assert(q < p as int) by (nonlinear_arith)
                        requires
                            2 <= q,
                            1 <= p as int,
                            q * q <= m as int,
                            (p as int) * (p as int) > m as int,
                    ;
                    assert(sieve.primes@.contains(q as u64));
                    let k = choose|k: int|
                        0 <= k < sieve.primes@.len() && sieve.primes@[k] == q as u64;
                    assert(k < pre_pos);
                    assert((m as int) % (sieve.primes@[k] as int) != 0);
                    assert(false);
                }
                // The cofactor is larger than everything pushed so far.
                if res@.len() > 0 {
                    let k0 = choose|k: int|
                        0 <= k < pre_pos && res@.last() == #[trigger] sieve.primes@[k];
                    let l = sieve.primes@[k0];
                    lemma_mod_self_0(m as int);
                    assert(m != l);
                    if m < l {
                        assert(sieve.primes@.contains(m));
                        let k1 = choose|k: int|
                            0 <= k < sieve.primes@.len() && sieve.primes@[k] == m;
                        assert(k1 < k0);
                        assert((m as int) % (sieve.primes@[k1] as int) != 0);
                        assert(false);
                    }
                }
            }
            let ghost pre_res = res@;
            res.push(m);
            proof {
                lemma_seq_product_push(pre_res, m);
            }
            m = 1;
            proof {
                assert forall|j: int|
                    0 <= j < cur.pos implies (1u64 as int) % (#[trigger] sieve.primes@[j] as int)
                        != 0 by {
                    lemma_small_mod(1nat, sieve.primes@[j] as nat);
                }
            }
        } else {
            proof {
                crate::primality::lemma_div_square(m as int, p as int);
            }
            let ghost m_before = m;
            while m % p == 0
                invariant
                    sieve.wf(),
                    2 <= p,
                    spec_is_prime(p as int),
                    0 <= pre_pos < cur.pos,
                    cur.pos <= sieve.primes@.len(),
                    p == sieve.primes@[pre_pos],
                    n >= 2,
                    1 <= m <= m_before,
                    m_before <= n,
                    seq_product(res@) * m == n as int,
                    forall|k: int| 0 <= k < res@.len() ==> spec_is_prime(#[trigger] res@[k] as int),
                    forall|k1: int, k2: int|
                        0 <= k1 <= k2 < res@.len() ==> #[trigger] res@[k1] <= #[trigger] res@[k2],
                    forall|k: int| 0 <= k < res@.len() ==> #[trigger] res@[k] <= p,
                    res@.len() > 0 ==> exists|k: int|
                        0 <= k < cur.pos && res@.last() == #[trigger] sieve.primes@[k],
                    forall|j: int|
                        0 <= j < pre_pos ==> (m as int) % (#[trigger] sieve.primes@[j] as int) != 0,
                decreases m,
            {
                proof {
                    if m < p {
                        lemma_small_mod(m as nat, p as nat);
                    }
                    lemma_fundamental_div_mod(m as int, p as int);
                    vstd::arithmetic::div_mod::lemma_div_is_strictly_smaller(m as int, p as int);
                }
                let newm = m / p;
                proof {
                    assert(m as int == (p as int) * (newm as int));
                    assert(newm >= 1) by (nonlinear_arith)
                        requires
                            m as int == (p as int) * (newm as int),
                            m >= 1,
                            p >= 2,
                    ;
                    assert forall|j: int|
                        0 <= j < pre_pos implies (newm as int) % (
                    #[trigger] sieve.primes@[j] as int) != 0 by {
                        if (newm as int) % (sieve.primes@[j] as int) == 0 {
                            lemma_mod_multiples_basic(p as int, newm as int);
                            lemma_divides_transitive(
                                sieve.primes@[j] as int,
                                newm as int,
                                m as int,
                            );
                        }
                    }
                }
                let ghost pre_res = res@;
                let ghost pre_m = m;
                m = newm;
                res.push(p);
                proof {
                    lemma_seq_product_push(pre_res, p);
                    assert(seq_product(res@) * m == n as int) by (nonlinear_arith)
                        requires
                            seq_product(res@) == seq_product(pre_res) * (p as int),
                            seq_product(pre_res) * (pre_m as int) == n as int,
                            pre_m as int == (p as int) * (m as int),
                    ;
                    assert(exists|k: int|
                        0 <= k < cur.pos && res@.last() == #[trigger] sieve.primes@[k]) by {
                        assert(res@.last() == sieve.primes@[pre_pos]);
                    }
                }
            }
            proof {
                // The candidate's index stays well below `n`: its square is
                // at most the cofactor that was just examined.
                sieve.lemma_prime_index_bound(pre_pos);
                assert(p as int >= pre_pos + 2);
                assert(pre_pos + 2 <= n as int) by (nonlinear_arith)
                    requires
                        2 <= pre_pos + 2 <= p as int,
                        (p as int) * (p as int) <= m_before as int,
                        m_before as int <= n as int,
                ;
            }
        }
    }
    res
}

/// The first `n` primes, in order: exactly `n` elements, strictly
/// increasing, every element prime, each element followed by the smallest
/// prime above it. Fails with `DomainOverflow` only when fewer than `n`
/// primes are representable in the domain.
pub fn list_first(sieve: &mut Sieve, n: usize) -> (r: Result<Vec<u64>, SieveError>)
    requires
        old(sieve).wf(),
    ensures
        final(sieve).wf(),
        old(sieve).bound <= final(sieve).bound,
        seq_extends(old(sieve).primes@, final(sieve).primes@),
        match r {
            Ok(v) => {
                &&& v@.len() == n
                &&& n <= final(sieve).primes@.len()
                &&& forall|k: int| 0 <= k < n ==> v@[k] == #[trigger] final(sieve).primes@[k]
                &&& forall|k: int| 0 <= k < n ==> spec_is_prime(#[trigger] v@[k] as int)
                &&& forall|k: int| 0 <= k && k + 1 < n ==> #[trigger] v@[k] < v@[k + 1]
                &&& forall|k: int, q: int|
                    0 <= k && k + 1 < n && #[trigger] v@[k] < q < v@[k + 1]
                        ==> !#[trigger] spec_is_prime(q)
                &&& n > 0 ==> v@[0] == 2
            },
            Err(e) => {
                &&& e == SieveError::DomainOverflow
                &&& final(sieve).bound == u64::MAX
                &&& final(sieve).primes@.len() < n
            },
        },
{
    let mut v: Vec<u64> = Vec::new();
    let mut cur = sieve.iterate();
    while v.len() < n
        invariant
            sieve.wf(),
            old(sieve).bound <= sieve.bound,
            seq_extends(old(sieve).primes@, sieve.primes@),
            cur.pos == v@.len(),
            v@.len() <= n,
            cur.pos <= sieve.primes@.len(),
            forall|k: int| 0 <= k < v@.len() ==> v@[k] == #[trigger] sieve.primes@[k],
        decreases n - v@.len(),
    {
        match cur.next(sieve) {
            Ok(p) => {
                v.push(p);
            },
            Err(e) => {
                return Err(e);
            },
        }
    }
    proof {
        assert forall|k: int| 0 <= k < n implies spec_is_prime(#[trigger] v@[k] as int) by {
            assert(v@[k] == sieve.primes@[k]);
            assert(spec_is_prime(sieve.primes@[k] as int));
        }
        assert forall|k: int| 0 <= k && k + 1 < n implies #[trigger] v@[k] < v@[k + 1] by {
            assert(v@[k] == sieve.primes@[k]);
            assert(v@[k + 1] == sieve.primes@[k + 1]);
            assert(sieve.primes@[k] < sieve.primes@[k + 1]);
        }
        assert forall|k: int, q: int|
            0 <= k && k + 1 < n && #[trigger] v@[k] < q < v@[k + 1] implies
            !#[trigger] spec_is_prime(q) by {
            if spec_is_prime(q) {
                let qu = q as u64;
                assert(v@[k] == sieve.primes@[k]);
                assert(v@[k + 1] == sieve.primes@[k + 1]);
                assert(sieve.primes@[k + 1] <= sieve.bound);
                assert(2 <= qu <= sieve.bound);
                assert(sieve.primes@.contains(qu));
                let j = choose|j: int| 0 <= j < sieve.primes@.len() && sieve.primes@[j] == qu;
                if j < k {
                    assert(sieve.primes@[j] < sieve.primes@[k]);
                } else if j > k + 1 {
                    assert(sieve.primes@[k + 1] < sieve.primes@[j]);
                }
                assert(false);
            }
        }
        if n > 0 {
            assert(spec_is_prime(sieve.primes@[0] as int));
            assert(sieve.bound >= 2);
            assert(spec_is_prime(2u64 as int));
            assert(sieve.primes@.contains(2u64));
            let j = choose|j: int| 0 <= j < sieve.primes@.len() && sieve.primes@[j] == 2u64;
            if j > 0 {
                assert(sieve.primes@[0] < sieve.primes@[j]);
            }
            assert(j == 0);
        }
    }
    Ok(v)
}

/// `amount` consecutive primes starting at the `n`-th (1-based: 2 is the
/// first prime). Fails with `IndexOutOfDomain` exactly when `n` is zero,
/// and with `DomainOverflow` when the requested range cannot be populated
/// within the domain.
pub fn nth_with_context(sieve: &mut Sieve, n: usize, amount: usize) -> (r: Result<
    Vec<u64>,
    SieveError,
>)
    requires
        old(sieve).wf(),
    ensures
        final(sieve).wf(),
        old(sieve).bound <= final(sieve).bound,
        seq_extends(old(sieve).primes@, final(sieve).primes@),
        match r {
            Ok(v) => {
                &&& n >= 1
                &&& v@.len() == amount
                &&& amount > 0 ==> n - 1 + amount <= final(sieve).primes@.len()
                &&& forall|k: int|
                    0 <= k < amount ==> v@[k] == #[trigger] final(sieve).primes@[n - 1 + k]
            },
            Err(e) => match e {
                SieveError::IndexOutOfDomain => n == 0,
                SieveError::DomainOverflow => {
                    &&& n >= 1
                    &&& amount >= 1
                    &&& n - 1 + amount > final(sieve).primes@.len()
                    &&& (final(sieve).bound == u64::MAX || n - 1 + amount - 1 > usize::MAX)
                },
                SieveError::NoSmallerPrime => false,
            },
        },
{
    if n == 0 {
        return Err(SieveError::IndexOutOfDomain);
    }
    if amount == 0 {
        return Ok(Vec::new());
    }
    if amount - 1 > usize::MAX - (n - 1) {
        let len = sieve.primes.len();
        assert(len <= usize::MAX);
        return Err(SieveError::DomainOverflow);
    }
    let last = (n - 1) + (amount - 1);
    match sieve.get(last) {
        Ok(_) => {
            let mut v: Vec<u64> = Vec::new();
            let mut k: usize = 0;
            while k < amount
                invariant
                    sieve.wf(),
                    n >= 1,
                    amount >= 1,
                    k <= amount,
                    n - 1 + amount - 1 <= usize::MAX,
                    n - 1 + amount <= sieve.primes@.len(),
                    v@.len() == k,
                    forall|j: int| 0 <= j < k ==> v@[j] == #[trigger] sieve.primes@[n - 1 + j],
                decreases amount - k,
            {
                v.push(sieve.primes[n - 1 + k]);
                k = k + 1;
            }
            Ok(v)
        },
        Err(e) => Err(e),
    }
}

/// The smallest prime at or above `number`, with its 1-based position:
/// `number` itself when `number` is prime. The inclusive boundary matches
/// the store's `find_at_least`.
pub fn next_prime(sieve: &mut Sieve, number: u64) -> (r: Result<(usize, u64), SieveError>)
    requires
        old(sieve).wf(),
    ensures
        final(sieve).wf(),
        old(sieve).bound <= final(sieve).bound,
        seq_extends(old(sieve).primes@, final(sieve).primes@),
        match r {
            Ok((i, p)) => {
                &&& is_next_prime_ge(number as int, p as int)
                &&& 1 <= i <= final(sieve).primes@.len()
                &&& p == final(sieve).primes@[i - 1]
            },
            Err(e) => {
                &&& e == SieveError::DomainOverflow
                &&& forall|q: u64| q >= number ==> !spec_is_prime(q as int)
            },
        },
{
    sieve.find_at_least(number)
}

/// The largest prime strictly below `number`, with its 1-based position.
/// Fails with `NoSmallerPrime` exactly when `number <= 2`.
pub fn previous_prime(sieve: &mut Sieve, number: u64) -> (r: Result<(usize, u64), SieveError>)
    requires
        old(sieve).wf(),
    ensures
        final(sieve).wf(),
        old(sieve).bound <= final(sieve).bound,
        seq_extends(old(sieve).primes@, final(sieve).primes@),
        match r {
            Ok((i, p)) => {
                &&& number > 2
                &&& is_prev_prime(number as int, p as int)
                &&& 1 <= i <= final(sieve).primes@.len()
                &&& p == final(sieve).primes@[i - 1]
            },
            Err(e) => e == SieveError::NoSmallerPrime && number <= 2,
        },
{
    sieve.find_at_most(number)
}

/// Tie-breaking preference when a query value sits between two primes.
#[derive(Clone, Copy, Debug, PartialEq, Eq, Structural)]
pub enum Bias {
    /// On a tie, report the next prime.
    Next,
    /// On a tie, report the previous prime.
    Previous,
}

/// Which neighbour the closest-prime query reports, given the previous
/// prime `pv` and the next prime `nx` around `x`: the nearer of the two,
/// with `bias` breaking ties.
pub open spec fn spec_closest_choice(x: int, bias: Bias, pv: int, nx: int) -> int {
    match bias {
        Bias::Next => if x - pv >= nx - x {
            nx
        } else {
            pv
        },
        Bias::Previous => if x - pv <= nx - x {
            pv
        } else {
            nx
        },
    }
}

/// At most one prime is the largest below `x`.
proof fn lemma_prev_prime_unique(x: int, a: int, b: int)
    requires
        is_prev_prime(x, a),
        is_prev_prime(x, b),
    ensures
        a == b,
{
    if a < b {
        assert(!spec_is_prime(b));
    }
    if b < a {
        assert(!spec_is_prime(a));
    }
}

/// At most one prime is the smallest at or above `x`.
proof fn lemma_next_prime_unique(x: int, a: int, b: int)
    requires
        is_next_prime_ge(x, a),
        is_next_prime_ge(x, b),
    ensures
        a == b,
{
    if a < b {
        assert(!spec_is_prime(a));
    }
    if b < a {
        assert(!spec_is_prime(b));
    }
}

/// The prime closest to `number`, with its 1-based position: the nearer of
/// the previous prime and the smallest prime at or above `number` (which
/// is `number` itself when prime, at distance zero), `bias` breaking ties.
/// Fails with `NoSmallerPrime` exactly when `number <= 2`.
pub fn closest_prime(sieve: &mut Sieve, number: u64, bias: Bias) -> (r: Result<
    (usize, u64),
    SieveError,
>)
    requires
        old(sieve).wf(),
    ensures
        final(sieve).wf(),
        old(sieve).bound <= final(sieve).bound,
        seq_extends(old(sieve).primes@, final(sieve).primes@),
        match r {
            Ok((i, p)) => {
                &&& number > 2
                &&& 1 <= i <= final(sieve).primes@.len()
                &&& p == final(sieve).primes@[i - 1]
                &&& forall|pv: int, nx: int|
                    #[trigger] is_prev_prime(number as int, pv) && #[trigger] is_next_prime_ge(
                        number as int,
                        nx,
                    ) ==> p == spec_closest_choice(number as int, bias, pv, nx)
            },
            Err(e) => match e {
                SieveError::NoSmallerPrime => number <= 2,
                SieveError::DomainOverflow => number > 2 && forall|q: u64|
                    q >= number ==> !spec_is_prime(q as int),
                SieveError::IndexOutOfDomain => false,
            },
        },
{
    let (pi, pp) = match sieve.find_at_most(number) {
        Ok(t) => t,
        Err(e) => {
            return Err(e);
        },
    };
    let (ni, np) = match sieve.find_at_least(number) {
        Ok(t) => t,
        Err(e) => {
            return Err(e);
        },
    };
    proof {
        assert(pp == sieve.primes@[pi - 1]);
        assert forall|pv: int, nx: int|
            #[trigger] is_prev_prime(number as int, pv) && #[trigger] is_next_prime_ge(
                number as int,
                nx,
            ) implies pv == pp as int && nx == np as int by {
            lemma_prev_prime_unique(number as int, pv, pp as int);
            lemma_next_prime_unique(number as int, nx, np as int);
        }
    }
    let dp = number - pp;
    let dn = np - number;
    match bias {
        Bias::Next => if dp >= dn {
            Ok((ni, np))
        } else {
            Ok((pi, pp))
        },
        Bias::Previous => if dp <= dn {
            Ok((pi, pp))
        } else {
            Ok((ni, np))
        },
    }
}

} // verus!
