//! Core number-theoretic definitions and lemmas: divisibility, primality,
//! the existence of prime factors, and square-root bounds on divisors.

use vstd::prelude::*;
use vstd::arithmetic::div_mod::{
    lemma_fundamental_div_mod, lemma_mod_mod, lemma_mod_multiples_basic,
};

verus! {

/// `n` is prime: at least 2, and no integer in `[2, n)` divides it.
pub open spec fn is_prime(n: int) -> bool {
    n >= 2 && forall|d: int| 2 <= d < n ==> #[trigger] (n % d) != 0
}

/// If `d` divides `m` and `m` divides `n`, then `d` divides `n`.
pub proof fn lemma_divides_transitive(d: int, m: int, n: int)
    requires
        1 <= d,
        1 <= m,
        m % d == 0,
        n % m == 0,
    ensures
        n % d == 0,
{
    let a = m / d;
    let b = n / m;
    lemma_fundamental_div_mod(m, d);
    lemma_fundamental_div_mod(n, m);
    assert(n == (a * b) * d) by (nonlinear_arith)
        requires
            m == d * a + 0,
            n == m * b + 0,
    ;
    lemma_mod_multiples_basic(a * b, d);
}

/// Every integer at least 2 has a prime divisor (possibly itself).
pub proof fn lemma_prime_factor_exists(n: int)
    requires
        n >= 2,
    ensures
        exists|p: int| is_prime(p) && p <= n && #[trigger] (n % p) == 0,
    decreases n,
{
    if is_prime(n) {
        lemma_mod_multiples_basic(1, n);
        assert(n % n == 0);
        assert(is_prime(n) && n <= n && n % n == 0);
    } else {
        let d = choose|d: int| 2 <= d < n && #[trigger] (n % d) == 0;
        assert(2 <= d < n && n % d == 0);
        lemma_prime_factor_exists(d);
        let p = choose|p: int| is_prime(p) && p <= d && #[trigger] (d % p) == 0;
        lemma_divides_transitive(p, d, n);
        assert(is_prime(p) && p <= n && n % p == 0);
    }
}

/// A composite number has a divisor `d >= 2` with `d * d <= n`.
pub proof fn lemma_composite_has_small_factor(n: int)
    requires
        n >= 2,
        !is_prime(n),
    ensures
        exists|d: int| 2 <= d && d * d <= n && #[trigger] (n % d) == 0,
{
    let d = choose|d: int| 2 <= d < n && #[trigger] (n % d) == 0;
    let e = n / d;
    lemma_fundamental_div_mod(n, d);
    assert(n == d * e);
    assert(e >= 2) by (nonlinear_arith)
        requires
            n == d * e,
            2 <= d < n,
    ;
    if d <= e {
        assert(d * d <= n) by (nonlinear_arith)
            requires
                n == d * e,
                2 <= d <= e,
        ;
        assert(2 <= d && d * d <= n && n % d == 0);
    } else {
        assert(e * e <= n) by (nonlinear_arith)
            requires
                n == d * e,
                2 <= e <= d,
        ;
        lemma_mod_multiples_basic(d, e);
        assert((d * e) % e == 0);
        assert(2 <= e && e * e <= n && n % e == 0);
    }
}

/// An integer not divisible by 2 or 3 is congruent to 1 or 5 modulo 6.
pub proof fn lemma_mod_six_of_coprime(d: int)
    requires
        d >= 0,
        d % 2 != 0,
        d % 3 != 0,
    ensures
        d % 6 == 1 || d % 6 == 5,
{
    lemma_mod_mod(d, 2, 3);
    assert((d % 6) % 2 == d % 2);
    lemma_mod_mod(d, 3, 2);
    assert((d % 6) % 3 == d % 3);
    assert(0 <= d % 6 < 6);
    assert(d % 6 == 1 || d % 6 == 5) by (nonlinear_arith)
        requires
            0 <= d % 6 < 6,
            (d % 6) % 2 != 0,
            (d % 6) % 3 != 0,
    ;
}

/// The primes below `c`, in increasing order: the reference stream that
/// a correct generator emits while its cursor stands at `c`.
pub open spec fn prime_seq(c: int) -> Seq<u64>
    decreases c,
{
    if c <= 2 {
        Seq::empty()
    } else if is_prime(c - 1) {
        prime_seq(c - 1).push((c - 1) as u64)
    } else {
        prime_seq(c - 1)
    }
}

/// The primes in `[a, b)`, in increasing order: what a growth step from
/// limit `a` to limit `b` is allowed to emit.
pub open spec fn prime_seq_range(a: int, b: int) -> Seq<u64>
    decreases b - a,
{
    if b <= a {
        Seq::empty()
    } else if is_prime(b - 1) {
        prime_seq_range(a, b - 1).push((b - 1) as u64)
    } else {
        prime_seq_range(a, b - 1)
    }
}

/// `prime_seq(c)` holds exactly the primes below `c`, each at least 2,
/// in strictly increasing order.
pub proof fn lemma_prime_seq_members(c: int)
    requires
        c <= u64::MAX as int + 1,
    ensures
        forall|k: int|
            0 <= k < prime_seq(c).len() ==> 2 <= #[trigger] prime_seq(c)[k] && (prime_seq(
                c,
            )[k] as int) < c && is_prime(prime_seq(c)[k] as int),
        forall|k1: int, k2: int|
            0 <= k1 < k2 < prime_seq(c).len() ==> prime_seq(c)[k1] < prime_seq(c)[k2],
        forall|p: u64| 2 <= p && (p as int) < c && is_prime(p as int) ==> prime_seq(c).contains(p),
    decreases c,
{
    if c <= 2 {
    } else {
        lemma_prime_seq_members(c - 1);
        let prev = prime_seq(c - 1);
        let cur = prime_seq(c);
        assert forall|p: u64| 2 <= p && (p as int) < c && is_prime(p as int) implies cur.contains(
            p,
        ) by {
            if (p as int) < c - 1 {
                assert(prev.contains(p));
                let k = choose|k: int| 0 <= k < prev.len() && prev[k] == p;
                assert(cur[k] == p);
            } else {
                assert(p as int == c - 1);
                assert(is_prime(c - 1));
                assert(cur[cur.len() - 1] == p);
            }
        }
    }
}

/// Splitting the reference stream at a limit `a`: the primes below `b`
/// are the primes below `a` followed by the primes in `[a, b)`.  A
/// growth step therefore never re-emits an already-emitted prime and
/// never skips one.
pub proof fn lemma_prime_seq_split(a: int, b: int)
    requires
        a <= b,
    ensures
        prime_seq(b) == prime_seq(a) + prime_seq_range(a, b),
    decreases b - a,
{
    if b <= a {
        assert(prime_seq(b) =~= prime_seq(a) + prime_seq_range(a, b));
    } else if b <= 2 {
        lemma_prime_seq_split(a, b - 1);
        assert(prime_seq(b) =~= prime_seq(a) + prime_seq_range(a, b));
    } else {
        lemma_prime_seq_split(a, b - 1);
        assert(prime_seq(b) =~= prime_seq(a) + prime_seq_range(a, b));
    }
}

/// Two multiples of `c` are at least `c` apart.
pub proof fn lemma_multiples_spacing(i: int, m: int, c: int)
    requires
        c >= 1,
        i % c == 0,
        m % c == 0,
        m < i,
    ensures
        i >= m + c,
{
    lemma_fundamental_div_mod(i, c);
    lemma_fundamental_div_mod(m, c);
    let qi = i / c;
    let qm = m / c;
    assert(i >= m + c) by (nonlinear_arith)
        requires
            c >= 1,
            i == c * qi,
            m == c * qm,
            m < i,
    ;
}

} // verus!
