//! Trial-division primality: the `6k +- 1` wheel kernel, a range
//! collector, and the incremental generator state for the
//! trial-division strategy.

use vstd::prelude::*;
use crate::arith::{
    is_prime, lemma_composite_has_small_factor, lemma_divides_transitive, lemma_mod_six_of_coprime,
};
use vstd::arithmetic::div_mod::lemma_fundamental_div_mod;

verus! {

/// Primality by trial division: composites are rejected by 2, by 3, or by
/// a divisor of the form `6k - 1` or `6k + 1` no larger than the square
/// root of `n`.
pub fn is_prime_trial_division(n: u64) -> (r: bool)
    ensures
        r == is_prime(n as int),
{
    if n < 2 {
        return false;
    }
    if n == 2 || n == 3 {
        proof {
            assert(is_prime(2)) by {
                assert(forall|d: int| 2 <= d < 2 ==> #[trigger] (2int % d) != 0);
            }
            assert(is_prime(3)) by {
                assert(3int % 2 == 1);
            }
        }
        return true;
    }
    if n % 2 == 0 {
        proof {
            assert(2 <= 2 < n as int && (n as int) % 2 == 0);
        }
        return false;
    }
    if n % 3 == 0 {
        proof {
            assert(2 <= 3 < n as int && (n as int) % 3 == 0);
        }
        return false;
    }
    let mut i: u64 = 5;
    while i <= n / i
        invariant
            5 <= i <= n,
            i % 6 == 5,
            n >= 5,
            forall|j: int|
                5 <= j < i && (j % 6 == 5 || j % 6 == 1) ==> #[trigger] ((n as int) % j) != 0,
        decreases n as int - i as int,
    {
        proof {
            lemma_fundamental_div_mod(n as int, i as int);
            assert((i as int) * (i as int) <= n as int) by (nonlinear_arith)
                requires
                    5 <= i,
                    i as int <= (n as int) / (i as int),
                    n as int == (i as int) * ((n as int) / (i as int)) + (n as int) % (i as int),
                    (n as int) % (i as int) >= 0,
            ;
            assert(i < n) by (nonlinear_arith)
                requires
                    5 <= i,
                    (i as int) * (i as int) <= n as int,
            ;
            vstd::arithmetic::div_mod::lemma_div_is_ordered_by_denominator(n as int, 5, i as int);
            assert(i as int <= (n as int) / 5);
        }
        if n % i == 0 {
            proof {
                assert(2 <= (i as int) && (i as int) < (n as int) && (n as int) % (i as int) == 0);
            }
            return false;
        }
        if n % (i + 2) == 0 {
            proof {
                assert(i as int + 2 < n as int) by (nonlinear_arith)
                    requires
                        5 <= i,
                        (i as int) * (i as int) <= n as int,
                ;
            }
            return false;
        }
        proof {
            // The only candidates congruent to 1 or 5 mod 6 in
            // [i, i + 6) are i itself and i + 2.
            assert(forall|j: int|
                i <= j < i + 6 && (#[trigger] (j % 6) == 5 || j % 6 == 1) ==> j == i || j == i
                    + 2) by {
                assert forall|j: int|
                    i <= j < i + 6 && (#[trigger] (j % 6) == 5 || j % 6 == 1) implies j == i || j
                    == i + 2 by {
                    lemma_fundamental_div_mod(j, 6);
                    lemma_fundamental_div_mod(i as int, 6);
                    let qj = j / 6;
                    let qi = i as int / 6;
                    if j % 6 == 5 {
                        assert(j == i) by (nonlinear_arith)
                            requires
                                j == 6 * qj + 5,
                                i as int == 6 * qi + 5,
                                i <= j < i + 6,
                        ;
                    } else {
                        assert(j == i + 2) by (nonlinear_arith)
                            requires
                                j == 6 * qj + 1,
                                i as int == 6 * qi + 5,
                                i <= j < i + 6,
                        ;
                    }
                }
            }
            lemma_fundamental_div_mod(n as int, 5);
            assert(i as int + 6 <= n as int) by (nonlinear_arith)
                requires
                    5 <= i,
                    (i as int) * (i as int) <= n as int,
                    i as int <= (n as int) / 5,
                    n as int == 5 * ((n as int) / 5) + (n as int) % 5,
                    0 <= (n as int) % 5,
            ;
        }
        i = i + 6;
    }
    proof {
        lemma_fundamental_div_mod(n as int, i as int);
        vstd::arithmetic::div_mod::lemma_mod_bound(n as int, i as int);
        assert((i as int) * (i as int) > n as int) by (nonlinear_arith)
            requires
                5 <= i,
                i as int > (n as int) / (i as int),
                n as int == (i as int) * ((n as int) / (i as int)) + (n as int) % (i as int),
                0 <= (n as int) % (i as int) < i as int,
        ;
        if !is_prime(n as int) {
            lemma_composite_has_small_factor(n as int);
            let d = choose|d: int|
                2 <= d && d * d <= n as int && #[trigger] ((n as int) % d) == 0;
            if d % 2 == 0 {
                lemma_divides_transitive(2, d, n as int);
                assert((n as int) % 2 == 0);
            } else if d % 3 == 0 {
                lemma_divides_transitive(3, d, n as int);
                assert((n as int) % 3 == 0);
            } else {
                lemma_mod_six_of_coprime(d);
                assert(d >= 5) by (nonlinear_arith)
                    requires
                        d >= 2,
                        d % 6 == 1 || d % 6 == 5,
                ;
                assert(d < i) by (nonlinear_arith)
                    requires
                        d * d <= n as int,
                        (i as int) * (i as int) > n as int,
                        d >= 0,
                        i >= 0,
                ;
                assert((n as int) % d != 0);
            }
        }
    }
    true
}

/// All primes in the inclusive range `[lo, hi]`, in strictly increasing
/// order, with no duplicates and no omissions.
pub fn primes_in_range_trial(lo: u64, hi: u64) -> (r: Vec<u64>)
    requires
        hi < u64::MAX,
    ensures
        forall|k: int| 0 <= k < r@.len() ==> lo <= #[trigger] r@[k] <= hi && is_prime(r@[k] as int),
        forall|k1: int, k2: int| 0 <= k1 < k2 < r@.len() ==> r@[k1] < r@[k2],
        forall|v: u64| lo <= v <= hi && is_prime(v as int) ==> r@.contains(v),
{
    let mut out: Vec<u64> = Vec::new();
    let mut n: u64 = lo;
    while n <= hi
        invariant
            hi < u64::MAX,
            lo <= n,
            forall|k: int|
                0 <= k < out@.len() ==> lo <= #[trigger] out@[k] < n && out@[k] <= hi && is_prime(
                    out@[k] as int,
                ),
            forall|k1: int, k2: int| 0 <= k1 < k2 < out@.len() ==> out@[k1] < out@[k2],
            forall|v: u64| lo <= v < n && v <= hi && is_prime(v as int) ==> out@.contains(v),
        decreases hi as int + 1 - n as int,
    {
        if is_prime_trial_division(n) {
            let ghost old_out = out@;
            out.push(n);
            proof {
                assert(out@ == old_out.push(n));
                assert(forall|v: u64| old_out.contains(v) ==> out@.contains(v)) by {
                    assert forall|v: u64| old_out.contains(v) implies out@.contains(v) by {
                        let k = choose|k: int| 0 <= k < old_out.len() && old_out[k] == v;
                        assert(out@[k] == v);
                    }
                }
                assert(out@.contains(n)) by {
                    assert(out@[out@.len() - 1] == n);
                }
            }
        }
        n = n + 1;
    }
    out
}

/// Scan state of the incremental trial-division generator: a cursor that
/// advances one integer at a time, testing each with the kernel.
pub struct TrialDivisionStream {
    next: u64,
}

impl TrialDivisionStream {
    /// The next integer the stream will test.
    pub closed spec fn cursor(self) -> int {
        self.next as int
    }

    /// The stream starts at 2, the first prime candidate.
    pub fn new() -> (s: Self)
        ensures
            s.cursor() == 2,
    {
        TrialDivisionStream { next: 2 }
    }

    /// Whether the cursor can still advance without overflowing.
    pub fn can_advance(&self) -> (r: bool)
        ensures
            r == (self.cursor() < u64::MAX as int),
    {
        self.next < u64::MAX
    }

    /// Test the current integer and move past it; the result is the
    /// integer itself exactly when it is prime.
    pub fn advance(&mut self) -> (r: Option<u64>)
        requires
            old(self).cursor() < u64::MAX as int,
        ensures
            final(self).cursor() == old(self).cursor() + 1,
            r == if is_prime(old(self).cursor()) {
                Some(old(self).cursor() as u64)
            } else {
                Option::<u64>::None
            },
    {
        let n = self.next;
        let found = is_prime_trial_division(n);
        self.next = n + 1;
        if found {
            Some(n)
        } else {
            None
        }
    }
}

} // verus!
