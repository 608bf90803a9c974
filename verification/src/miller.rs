//! The randomized-witness (Miller-Rabin) primality kernel.
//!
//! The deterministic part - testing a number against a given list of
//! witness bases - is fully verified against an exact arithmetic
//! characterization.  Drawing the random bases is the only trusted step.

use vstd::prelude::*;
use crate::modexp::mod_pow;
use vstd::arithmetic::power::{
    lemma_pow_adds, lemma_square_is_pow2, lemma_pow_mod_noop, pow,
};
use vstd::arithmetic::power2::{lemma_pow2_unfold, pow2};
use vstd::arithmetic::div_mod::lemma_mul_mod_noop_general;

verus! {

/// The largest odd divisor of `m`.
pub open spec fn odd_part(m: nat) -> nat
    decreases m,
{
    if m == 0 || m % 2 == 1 {
        m
    } else {
        odd_part(m / 2)
    }
}

/// The exponent of 2 in `m`: the `s` with `m == 2^s * odd_part(m)`.
pub open spec fn twos_exponent(m: nat) -> nat
    decreases m,
{
    if m == 0 || m % 2 == 1 {
        0
    } else {
        twos_exponent(m / 2) + 1
    }
}

/// Base `a` fails to witness compositeness of odd `n > 3`: with
/// `n - 1 == 2^s * d` and `d` odd, either `a^d == 1 (mod n)`, or
/// `a^(2^r * d) == n - 1 (mod n)` for some `r < s`.
pub open spec fn witness_passes(n: nat, a: nat) -> bool {
    let d = odd_part((n - 1) as nat);
    let s = twos_exponent((n - 1) as nat);
    pow(a as int, d) % (n as int) == 1 || exists|r: nat|
        r < s && #[trigger] pow(a as int, pow2(r) * d) % (n as int) == n - 1
}

/// What the Miller-Rabin kernel decides for `n` when handed `bases`:
/// small cases are fixed, even numbers are rejected, and an odd `n > 3`
/// is accepted exactly when every base fails to witness compositeness.
pub open spec fn mr_accepts(n: nat, bases: Seq<u64>) -> bool {
    if n < 2 {
        false
    } else if n == 2 || n == 3 {
        true
    } else if n % 2 == 0 {
        false
    } else {
        forall|i: int| 0 <= i < bases.len() ==> witness_passes(n, #[trigger] bases[i] as nat)
    }
}

/// Test `n` against the given witness bases, exactly as `mr_accepts`
/// describes.  A `false` answer means some base proved `n` composite;
/// `true` means no base in the list could.
pub fn miller_rabin(n: u64, bases: &Vec<u64>) -> (r: bool)
    requires
        n > 3 && n % 2 == 1 ==> forall|i: int|
            0 <= i < bases@.len() ==> 2 <= #[trigger] bases@[i] < n - 1,
    ensures
        r == mr_accepts(n as nat, bases@),
{
    if n <= 3 {
        return n == 2 || n == 3;
    }
    if n % 2 == 0 {
        return false;
    }
    let nm1 = n - 1;
    let mut d: u64 = nm1;
    let mut s: u32 = 0;
    proof {
        assert(pow2(0) * (d as nat) == nm1 as nat) by {
            assert(pow2(0) == 1) by { vstd::arithmetic::power2::lemma2_to64(); }
        }
    }
    while d % 2 == 0
        invariant
            1 <= d <= nm1,
            nm1 == n - 1,
            n > 3,
            odd_part(nm1 as nat) == odd_part(d as nat),
            twos_exponent(nm1 as nat) == twos_exponent(d as nat) + s,
            pow2(s as nat) * (d as nat) == nm1 as nat,
            s <= 64,
        decreases d,
    {
        proof {
            lemma_pow2_unfold((s + 1) as nat);
            assert(pow2((s + 1) as nat) * ((d / 2) as nat) == pow2(s as nat) * (d as nat))
                by (nonlinear_arith)
                requires
                    d % 2 == 0,
                    d >= 1,
                    pow2((s + 1) as nat) == 2 * pow2(s as nat),
            ;
            vstd::arithmetic::power2::lemma2_to64();
            vstd::arithmetic::power2::lemma_pow2_pos(s as nat);
            if s + 1 > 64 {
                if s > 64 {
                    vstd::arithmetic::power2::lemma_pow2_strictly_increases(64, s as nat);
                }
                assert(pow2(s as nat) >= 0x1_0000_0000_0000_0000);
                assert(pow2(s as nat) * (d as nat) >= pow2(s as nat)) by (nonlinear_arith)
                    requires
                        d >= 1,
                ;
                assert(false);
            }
        }
        d = d / 2;
        s = s + 1;
    }
    let ghost dd: nat = odd_part((nm1) as nat);
    let ghost ss: nat = twos_exponent((nm1) as nat);
    proof {
        assert(odd_part(d as nat) == d as nat);
        assert(twos_exponent(d as nat) == 0);
        assert(dd == d as nat && ss == s as nat);
        // n - 1 is even, so s >= 1.
        assert(twos_exponent(nm1 as nat) >= 1) by {
            assert(nm1 % 2 == 0);
        }
    }
    let mut idx: usize = 0;
    while idx < bases.len()
        invariant
            n > 3,
            n % 2 == 1,
            nm1 == n - 1,
            dd == odd_part(nm1 as nat),
            ss == twos_exponent(nm1 as nat),
            dd == d as nat,
            ss == s as nat,
            1 <= ss,
            s <= 64,
            forall|i: int| 0 <= i < bases@.len() ==> 2 <= #[trigger] bases@[i] < n - 1,
            forall|i: int| 0 <= i < idx ==> witness_passes(n as nat, #[trigger] bases@[i] as nat),
        decreases bases@.len() - idx,
    {
        let a = bases[idx];
        let x0 = mod_pow(a, d, n);
        proof {
            assert(x0 as int == pow(a as int, dd) % (n as int));
        }
        if x0 == 1 {
            proof {
                assert(witness_passes(n as nat, a as nat));
            }
            idx = idx + 1;
            continue;
        }
        if x0 == nm1 {
            proof {
                assert(pow2(0) == 1) by { vstd::arithmetic::power2::lemma2_to64(); }
                assert(pow(a as int, pow2(0) * dd) % (n as int) == n - 1);
                assert(0 < ss && pow(a as int, pow2(0) * dd) % (n as int) == n - 1);
                assert(witness_passes(n as nat, a as nat));
            }
            idx = idx + 1;
            continue;
        }
        let mut x = x0;
        let mut j: u32 = 0;
        let mut found = false;
        proof {
            assert(pow2(0) == 1) by {
                vstd::arithmetic::power2::lemma2_to64();
            }
            assert(x as int == pow(a as int, pow2(0) * dd) % (n as int));
        }
        while j < s - 1
            invariant_except_break
                !found,
                x as int == pow(a as int, pow2(j as nat) * dd) % (n as int),
                forall|r: nat|
                    r <= j as nat ==> #[trigger] pow(a as int, pow2(r) * dd) % (n as int) != n - 1,
            invariant
                n > 3,
                nm1 == n - 1,
                dd == odd_part(nm1 as nat),
                ss == twos_exponent(nm1 as nat),
                ss == s as nat,
                1 <= s <= 64,
                j < s,
                2 <= a < n - 1,
                found ==> witness_passes(n as nat, a as nat),
            ensures
                found ==> witness_passes(n as nat, a as nat),
                !found ==> forall|r: nat|
                    r < ss ==> #[trigger] pow(a as int, pow2(r) * dd) % (n as int) != n - 1,
            decreases s - j,
        {
            let ghost xi: int = x as int;
            let ghost ej: nat = pow2(j as nat) * dd;
            x = mod_pow(x, 2, n);
            proof {
                // x^2 mod n == a^(2^(j+1) * d) mod n
                lemma_square_is_pow2(xi);
                assert(x as int == (xi * xi) % (n as int));
                lemma_pow_mod_noop(pow(a as int, ej), 2, n as int);
                lemma_square_is_pow2(pow(a as int, ej));
                lemma_pow_adds(a as int, ej, ej);
                lemma_pow2_unfold((j + 1) as nat);
                assert(pow2((j + 1) as nat) * dd == ej + ej) by (nonlinear_arith)
                    requires
                        pow2((j + 1) as nat) == 2 * pow2(j as nat),
                        ej == pow2(j as nat) * dd,
                ;
                assert((xi * xi) % (n as int) == pow(a as int, ej + ej) % (n as int)) by {
                    assert(xi == pow(a as int, ej) % (n as int));
                    lemma_mul_mod_noop_general(pow(a as int, ej), pow(a as int, ej), n as int);
                }
                assert(x as int == pow(a as int, pow2((j + 1) as nat) * dd) % (n as int));
            }
            j = j + 1;
            if x == nm1 {
                proof {
                    assert((j as nat) < ss && pow(a as int, pow2(j as nat) * dd) % (n as int) == n
                        - 1);
                    assert(witness_passes(n as nat, a as nat));
                }
                found = true;
                break;
            }
        }
        if !found {
            proof {
                // No power reached n - 1 and the odd power was not 1:
                // base a witnesses that n is composite.
                assert(pow2(0) == 1) by { vstd::arithmetic::power2::lemma2_to64(); }
                assert(pow(a as int, dd) % (n as int) != 1);
                assert(!witness_passes(n as nat, a as nat));
                assert(!mr_accepts(n as nat, bases@));
            }
            return false;
        }
        idx = idx + 1;
    }
    true
}

/// Relies on rand's `RngExt::random_range` on the half-open range
/// `2..n - 1`: the draw lies in the range, which is non-empty for
/// `n > 3`, so the call cannot panic.
#[verifier::external_body]
fn random_base(n: u64) -> (r: u64)
    requires
        n > 3,
    ensures
        2 <= r < n - 1,
{
    rand::RngExt::random_range(&mut rand::rng(), 2..(n - 1))
}

/// Probabilistic primality: test `n` against five randomly drawn witness
/// bases.  Small cases and even numbers are decided exactly; for odd
/// `n > 3` the answer is what `mr_accepts` yields for five bases from
/// the draw range `[2, n - 1)` - so a composite that every such base
/// witnesses is always rejected.
pub fn is_prime_miller_rabin(n: u64) -> (r: bool)
    ensures
        n < 2 ==> !r,
        n == 2 || n == 3 ==> r,
        n > 3 && n % 2 == 0 ==> !r,
        n > 3 && n % 2 == 1 ==> exists|bases: Seq<u64>|
            bases.len() == 5 && (forall|i: int|
                0 <= i < bases.len() ==> 2 <= #[trigger] bases[i] < n - 1) && r == mr_accepts(
                n as nat,
                bases,
            ),
{
    if n <= 3 {
        return n == 2 || n == 3;
    }
    if n % 2 == 0 {
        return false;
    }
    let mut bases: Vec<u64> = Vec::new();
    let mut t: usize = 0;
    while t < 5
        invariant
            n > 3,
            t <= 5,
            bases@.len() == t,
            forall|i: int| 0 <= i < bases@.len() ==> 2 <= #[trigger] bases@[i] < n - 1,
        decreases 5 - t,
    {
        let a = random_base(n);
        bases.push(a);
        t = t + 1;
    }
    let r = miller_rabin(n, &bases);
    proof {
        assert(bases@.len() == 5 && (forall|i: int|
            0 <= i < bases@.len() ==> 2 <= #[trigger] bases@[i] < n - 1) && r == mr_accepts(
            n as nat,
            bases@,
        ));
    }
    r
}

/// Scan state of the randomized-witness generator: a cursor that
/// advances one integer at a time, testing each with the
/// Miller-Rabin kernel.
pub struct MillerRabinStream {
    next: u64,
}

impl MillerRabinStream {
    /// The next integer the stream will test.
    pub closed spec fn cursor(self) -> int {
        self.next as int
    }

    /// The stream starts at 2, the first prime candidate.
    pub fn new() -> (s: Self)
        ensures
            s.cursor() == 2,
    {
        MillerRabinStream { next: 2 }
    }

    /// Whether the cursor can still advance without overflowing.
    pub fn can_advance(&self) -> (r: bool)
        ensures
            r == (self.cursor() < u64::MAX as int),
    {
        self.next < u64::MAX
    }

    /// Test the current integer with five random witness bases and move
    /// past it; the result is the integer itself exactly when the
    /// kernel accepts it.
    pub fn advance(&mut self) -> (r: Option<u64>)
        requires
            old(self).cursor() < u64::MAX as int,
        ensures
            final(self).cursor() == old(self).cursor() + 1,
            r is Some ==> r == Some(old(self).cursor() as u64),
            old(self).cursor() < 2 ==> r is None,
            old(self).cursor() == 2 || old(self).cursor() == 3 ==> r is Some,
            old(self).cursor() > 3 && old(self).cursor() % 2 == 0 ==> r is None,
            old(self).cursor() > 3 && old(self).cursor() % 2 == 1 ==> exists|bases: Seq<u64>|
                bases.len() == 5 && (forall|i: int|
                    0 <= i < bases.len() ==> 2 <= #[trigger] bases[i] < old(self).cursor() - 1) && (
                (r is Some) == mr_accepts(old(self).cursor() as nat, bases)),
    {
        let n = self.next;
        let found = is_prime_miller_rabin(n);
        self.next = n + 1;
        if found {
            Some(n)
        } else {
            None
        }
    }
}

} // verus!
