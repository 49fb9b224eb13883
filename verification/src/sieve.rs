//! The sieve store: a monotonically growing cache of the prime sequence.
//!
//! The store owns the ordered sequence of every prime up to its current
//! `bound` and grows only upward, on demand.

use vstd::prelude::*;
use crate::primality::{spec_is_prime, is_prime};

verus! {

/// The distinct failure kinds a query can report.
#[derive(Clone, Copy, Debug, PartialEq, Eq, Structural)]
pub enum SieveError {
    /// Growth required to answer the query would exceed the largest
    /// representable integer.
    DomainOverflow,
    /// A "previous prime" query was issued for a value at or below 2,
    /// below which no prime exists.
    NoSmallerPrime,
    /// A requested index or count is structurally invalid.
    IndexOutOfDomain,
}

/// `b` keeps every element of `a` at its place and only appends.
pub open spec fn seq_extends(a: Seq<u64>, b: Seq<u64>) -> bool {
    a.len() <= b.len() && forall|i: int| 0 <= i < a.len() ==> a[i] == #[trigger] b[i]
}

/// `p` is the smallest prime at or above `x`.
pub open spec fn is_next_prime_ge(x: int, p: int) -> bool {
    &&& spec_is_prime(p)
    &&& p >= x
    &&& forall|q: int| x <= q < p ==> !spec_is_prime(q)
}

/// `p` is the largest prime strictly below `x`.
pub open spec fn is_prev_prime(x: int, p: int) -> bool {
    &&& spec_is_prime(p)
    &&& p < x
    &&& forall|q: int| p < q < x ==> !spec_is_prime(q)
}

/// Appending is transitive across two growth steps.
proof fn lemma_seq_extends_trans(a: Seq<u64>, b: Seq<u64>, c: Seq<u64>)
    requires
        seq_extends(a, b),
        seq_extends(b, c),
    ensures
        seq_extends(a, c),
{
}

/// An incrementally growing cache of the prime sequence.
pub struct Sieve {
    /// Every prime up to `bound`, in increasing order, nothing else.
    pub primes: Vec<u64>,
    /// The largest integer up to which `primes` is guaranteed complete.
    pub bound: u64,
}

impl Sieve {
    /// Well-formedness: `primes` holds exactly the primes up to `bound`,
    /// strictly increasing.
    pub open spec fn wf(self) -> bool {
        &&& self.bound >= 1
        &&& forall|i: int|
            0 <= i < self.primes@.len() ==> spec_is_prime(#[trigger] self.primes@[i] as int)
                && self.primes@[i] <= self.bound
        &&& forall|i: int, j: int|
            0 <= i < j < self.primes@.len() ==> #[trigger] self.primes@[i] < #[trigger] self.primes@[j]
        &&& forall|p: u64|
            2 <= p <= self.bound && #[trigger] spec_is_prime(p as int) ==> self.primes@.contains(p)
    }

    /// The prime at position `i` of a well-formed store is at least
    /// `i + 2`: the sequence is strictly increasing and starts at 2.
    pub proof fn lemma_prime_index_bound(self, i: int)
        requires
            self.wf(),
            0 <= i < self.primes@.len(),
        ensures
            self.primes@[i] >= i + 2,
        decreases i,
    {
        if i > 0 {
            self.lemma_prime_index_bound(i - 1);
        }
    }

    /// Creates an empty store: no primes are known below 2.
    pub fn new() -> (s: Sieve)
        ensures
            s.wf(),
            s.bound == 1,
            s.primes@.len() == 0,
    {
        Sieve { primes: Vec::new(), bound: 1 }
    }

    /// Ensures the store is complete up to at least `target`, testing each
    /// candidate above the old bound and appending the primes among them.
    /// When the bound already covers `target` the store is left untouched.
    pub fn extend_to(&mut self, target: u64)
        requires
            old(self).wf(),
        ensures
            final(self).wf(),
            final(self).bound == if old(self).bound >= target {
                old(self).bound
            } else {
                target
            },
            old(self).bound >= target ==> *final(self) == *old(self),
            seq_extends(old(self).primes@, final(self).primes@),
    {
        while self.bound < target
            invariant
                self.wf(),
                seq_extends(old(self).primes@, self.primes@),
                self.bound >= old(self).bound,
                old(self).bound < target ==> self.bound <= target,
                old(self).bound >= target ==> *self == *old(self),
            decreases target - self.bound,
        {
            let c = self.bound + 1;
            let ghost pre = self.primes@;
            if is_prime(c) {
                self.primes.push(c);
                proof {
                    assert forall|p: u64|
                        2 <= p <= c && #[trigger] spec_is_prime(p as int)
                            implies self.primes@.contains(p) by {
                        if p == c {
                            assert(self.primes@[pre.len() as int] == c);
                        } else {
                            assert(pre.contains(p));
                            let k = choose|k: int| 0 <= k < pre.len() && pre[k] == p;
                            assert(self.primes@[k] == p);
                        }
                    }
                }
            } else {
                proof {
                    assert forall|p: u64|
                        2 <= p <= c && #[trigger] spec_is_prime(p as int)
                            implies self.primes@.contains(p) by {
                        assert(p != c);
                        assert(p <= self.bound);
                    }
                }
            }
            self.bound = c;
        }
    }

    /// Returns the prime at `index` (0-based) in the cached sequence,
    /// doubling the bound until the index is populated. Fails with
    /// `DomainOverflow` only when every prime representable in the domain
    /// is cached and there are still too few of them.
    pub fn get(&mut self, index: usize) -> (r: Result<u64, SieveError>)
        requires
            old(self).wf(),
        ensures
            final(self).wf(),
            old(self).bound <= final(self).bound,
            seq_extends(old(self).primes@, final(self).primes@),
            match r {
                Ok(p) => index < final(self).primes@.len() && p == final(self).primes@[index as int],
                Err(e) => {
                    &&& e == SieveError::DomainOverflow
                    &&& final(self).bound == u64::MAX
                    &&& final(self).primes@.len() <= index
                },
            },
    {
        loop
            invariant
                self.wf(),
                self.bound >= old(self).bound,
                seq_extends(old(self).primes@, self.primes@),
            decreases u64::MAX - self.bound,
        {
            if index < self.primes.len() {
                return Ok(self.primes[index]);
            }
            if self.bound == u64::MAX {
                return Err(SieveError::DomainOverflow);
            }
            let target = if self.bound > u64::MAX / 2 {
                u64::MAX
            } else {
                2 * self.bound
            };
            let ghost mid = *self;
            self.extend_to(target);
            proof {
                lemma_seq_extends_trans(old(self).primes@, mid.primes@, self.primes@);
            }
        }
    }

    /// Binary search over the sorted cache: the position of the first
    /// cached prime at or above `value`, if any.
    fn lowest_ge(&self, value: u64) -> (r: Option<usize>)
        requires
            self.wf(),
        ensures
            match r {
                Some(i) => {
                    &&& i < self.primes@.len()
                    &&& self.primes@[i as int] >= value
                    &&& forall|j: int| 0 <= j < i ==> self.primes@[j] < value
                },
                None => forall|j: int| 0 <= j < self.primes@.len() ==> self.primes@[j] < value,
            },
    {
        let mut lo: usize = 0;
        let mut hi: usize = self.primes.len();
        while lo < hi
            invariant
                self.wf(),
                lo <= hi <= self.primes@.len(),
                forall|j: int| 0 <= j < lo ==> self.primes@[j] < value,
                forall|j: int| hi <= j < self.primes@.len() ==> self.primes@[j] >= value,
            decreases hi - lo,
        {
            let mid = lo + (hi - lo) / 2;
            if self.primes[mid] < value {
                lo = mid + 1;
            } else {
                hi = mid;
            }
        }
        if lo < self.primes.len() {
            Some(lo)
        } else {
            None
        }
    }

    /// The smallest prime at or above `value`, with its 1-based position
    /// in the prime sequence, growing the store by doubling until one is
    /// cached. Fails with `DomainOverflow` exactly when no prime at or
    /// above `value` is representable in the domain.
    pub fn find_at_least(&mut self, value: u64) -> (r: Result<(usize, u64), SieveError>)
        requires
            old(self).wf(),
        ensures
            final(self).wf(),
            old(self).bound <= final(self).bound,
            seq_extends(old(self).primes@, final(self).primes@),
            match r {
                Ok((i, p)) => {
                    &&& is_next_prime_ge(value as int, p as int)
                    &&& 1 <= i <= final(self).primes@.len()
                    &&& p == final(self).primes@[i - 1]
                },
                Err(e) => {
                    &&& e == SieveError::DomainOverflow
                    &&& forall|q: u64| q >= value ==> !spec_is_prime(q as int)
                },
            },
    {
        if self.bound < value {
            self.extend_to(value);
        }
        loop
            invariant
                self.wf(),
                self.bound >= value,
                self.bound >= old(self).bound,
                seq_extends(old(self).primes@, self.primes@),
            decreases u64::MAX - self.bound,
        {
            match self.lowest_ge(value) {
                Some(i) => {
                    let len = self.primes.len();
                    assert(i < len);
                    let p = self.primes[i];
                    proof {
                        assert forall|q: int| value <= q < p implies !spec_is_prime(q) by {
                            if spec_is_prime(q) {
                                let qu = q as u64;
                                assert(2 <= qu <= self.bound);
                                assert(self.primes@.contains(qu));
                                let k = choose|k: int|
                                    0 <= k < self.primes@.len() && self.primes@[k] == qu;
                                assert(k < i);
                                assert(self.primes@[k] < value);
                            }
                        }
                    }
                    return Ok((i + 1, p));
                },
                None => {
                    if self.bound == u64::MAX {
                        proof {
                            assert forall|q: u64| q >= value implies !spec_is_prime(q as int) by {
                                if spec_is_prime(q as int) {
                                    assert(self.primes@.contains(q));
                                    let k = choose|k: int|
                                        0 <= k < self.primes@.len() && self.primes@[k] == q;
                                    assert(self.primes@[k] < value);
                                }
                            }
                        }
                        return Err(SieveError::DomainOverflow);
                    }
                    let target = if self.bound > u64::MAX / 2 {
                        u64::MAX
                    } else {
                        2 * self.bound
                    };
                    let ghost mid = *self;
                    self.extend_to(target);
                    proof {
                        lemma_seq_extends_trans(old(self).primes@, mid.primes@, self.primes@);
                    }
                },
            }
        }
    }

    /// Starts a lazy traversal of the unbounded prime sequence from its
    /// beginning. The traversal never runs out within the domain: the
    /// cursor grows this store on demand as it advances. Restarting is
    /// calling `iterate` again.
    pub fn iterate(&self) -> (c: PrimeCursor)
        ensures
            c.pos == 0,
    {
        PrimeCursor::new()
    }

    /// The largest prime strictly below `value`, with its 1-based position
    /// in the prime sequence. Fails with `NoSmallerPrime` exactly when
    /// `value <= 2`, below which no prime exists.
    pub fn find_at_most(&mut self, value: u64) -> (r: Result<(usize, u64), SieveError>)
        requires
            old(self).wf(),
        ensures
            final(self).wf(),
            old(self).bound <= final(self).bound,
            seq_extends(old(self).primes@, final(self).primes@),
            match r {
                Ok((i, p)) => {
                    &&& value > 2
                    &&& is_prev_prime(value as int, p as int)
                    &&& 1 <= i <= final(self).primes@.len()
                    &&& p == final(self).primes@[i - 1]
                },
                Err(e) => e == SieveError::NoSmallerPrime && value <= 2,
            },
    {
        if value <= 2 {
            return Err(SieveError::NoSmallerPrime);
        }
        self.extend_to(value - 1);
        proof {
            assert(spec_is_prime(2));
            assert(self.primes@.contains(2u64));
        }
        let i = match self.lowest_ge(value) {
            Some(i) => i,
            None => self.primes.len(),
        };
        proof {
            let k = choose|k: int| 0 <= k < self.primes@.len() && self.primes@[k] == 2u64;
            assert(k < i);
        }
        let p = self.primes[i - 1];
        proof {
            assert forall|q: int| p < q < value implies !spec_is_prime(q) by {
                if spec_is_prime(q) {
                    let qu = q as u64;
                    assert(2 <= qu <= self.bound);
                    assert(self.primes@.contains(qu));
                    let k = choose|k: int| 0 <= k < self.primes@.len() && self.primes@[k] == qu;
                    assert(i - 1 < k);
                    assert(k < i);
                }
            }
        }
        Ok((i, p))
    }
}

/// A restartable cursor over the unbounded prime sequence. Advancing
/// yields the next prime in order, transparently growing the store when
/// the cached entries are exhausted; restarting is constructing a fresh
/// cursor.
pub struct PrimeCursor {
    /// Position of the next prime to yield, 0-based.
    pub pos: usize,
}

impl PrimeCursor {
    /// A cursor at the start of the prime sequence.
    pub fn new() -> (c: PrimeCursor)
        ensures
            c.pos == 0,
    {
        PrimeCursor { pos: 0 }
    }

    /// Yields the prime at the cursor's position and advances past it.
    /// Fails with `DomainOverflow` only when the store already holds every
    /// representable prime and the cursor stands past the last of them.
    pub fn next(&mut self, sieve: &mut Sieve) -> (r: Result<u64, SieveError>)
        requires
            old(sieve).wf(),
        ensures
            final(sieve).wf(),
            old(sieve).bound <= final(sieve).bound,
            seq_extends(old(sieve).primes@, final(sieve).primes@),
            match r {
                Ok(p) => {
                    &&& old(self).pos < final(sieve).primes@.len()
                    &&& p == final(sieve).primes@[old(self).pos as int]
                    &&& final(self).pos == old(self).pos + 1
                },
                Err(e) => {
                    &&& e == SieveError::DomainOverflow
                    &&& final(sieve).bound == u64::MAX
                    &&& final(sieve).primes@.len() <= old(self).pos
                    &&& final(self).pos == old(self).pos
                },
            },
    {
        match sieve.get(self.pos) {
            Ok(p) => {
                let len = sieve.primes.len();
                assert(self.pos < len);
                self.pos = self.pos + 1;
                Ok(p)
            },
            Err(e) => Err(e),
        }
    }
}

} // verus!
