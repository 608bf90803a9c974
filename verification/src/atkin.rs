//! The growing quadratic-form (Atkin) sieve engine.
//!
//! A candidate `n` is toggled once for every solution of three
//! quadratic forms subject to conditions on `n mod 12`; a candidate
//! survives when it was toggled an odd number of times and no toggled
//! `r >= 5` has `r^2` dividing it; 2 and 3 are fixed true outside the
//! quadratic-form logic.  The toggle parity of a fixed `n` does not
//! depend on the grid bound once the bound covers the square root of
//! `n`, so the flag of each index is a function of the index alone:
//! growth recomputes the whole pass against the doubled limit and
//! necessarily reproduces every old flag.

use vstd::prelude::*;
use crate::arith::{lemma_divides_transitive, lemma_multiples_spacing};
use crate::cancel::CancellationSignal;

verus! {

/// Solution of `4x^2 + y^2 == n` under `n mod 12 in {1, 5}`.
pub open spec fn hit1(n: int, x: int, y: int) -> bool {
    4 * x * x + y * y == n && (n % 12 == 1 || n % 12 == 5)
}

/// Solution of `3x^2 + y^2 == n` under `n mod 12 == 7`.
pub open spec fn hit2(n: int, x: int, y: int) -> bool {
    3 * x * x + y * y == n && n % 12 == 7
}

/// Solution of `3x^2 - y^2 == n` with `x > y`, under `n mod 12 == 11`.
pub open spec fn hit3(n: int, x: int, y: int) -> bool {
    x > y && 3 * x * x - y * y == n && n % 12 == 11
}

/// How many of the three forms the pair `(x, y)` solves for `n`.
pub open spec fn hits1(n: int, x: int, y: int) -> nat {
    if hit1(n, x, y) {
        1
    } else {
        0
    }
}

/// Indicator of the second form.
pub open spec fn hits2(n: int, x: int, y: int) -> nat {
    if hit2(n, x, y) {
        1
    } else {
        0
    }
}

/// Indicator of the third form.
pub open spec fn hits3(n: int, x: int, y: int) -> nat {
    if hit3(n, x, y) {
        1
    } else {
        0
    }
}

/// All toggles that the pair `(x, y)` applies to `n`.
pub open spec fn pair_hits(n: int, x: int, y: int) -> nat {
    hits1(n, x, y) + hits2(n, x, y) + hits3(n, x, y)
}

/// Toggles applied to `n` by pairs `(x, y')` with `1 <= y' <= yb`.
pub open spec fn row_count(n: int, x: int, yb: int) -> nat
    decreases yb,
{
    if yb <= 0 {
        0
    } else {
        row_count(n, x, yb - 1) + pair_hits(n, x, yb)
    }
}

/// Toggles applied to `n` by pairs with `1 <= x' <= xb`, `1 <= y' <= yb`.
pub open spec fn grid_count(n: int, xb: int, yb: int) -> nat
    decreases xb,
{
    if xb <= 0 {
        0
    } else {
        grid_count(n, xb - 1, yb) + row_count(n, xb, yb)
    }
}

/// `n` is toggled an odd number of times.  The grid bound `n` covers
/// every solution, so this is the canonical, bound-free parity.
pub open spec fn atkin_toggled(n: int) -> bool {
    grid_count(n, n, n) % 2 == 1
}

/// `n` survives the whole pass: toggled odd, and no toggled `r >= 5`
/// has `r^2` dividing `n`.
pub open spec fn atkin_survives(n: int) -> bool {
    atkin_toggled(n) && !(exists|r: int|
        5 <= r && r * r <= n && #[trigger] atkin_toggled(r) && n % (r * r) == 0)
}

/// The final flag of index `n`: 2 and 3 are fixed true, everything
/// else follows the quadratic-form logic.
pub open spec fn atkin_flag(n: int) -> bool {
    n == 2 || n == 3 || atkin_survives(n)
}

/// The indices the engine emits while its emission cursor stands at
/// `c`: every flagged index below `c`, in increasing order.
pub open spec fn atkin_seq(c: int) -> Seq<u64>
    decreases c,
{
    if c <= 2 {
        Seq::empty()
    } else if atkin_flag(c - 1) {
        atkin_seq(c - 1).push((c - 1) as u64)
    } else {
        atkin_seq(c - 1)
    }
}

/// A pair solving any form for `n` has both coordinates within the
/// square root of `n`.
proof fn lemma_hits_support(n: int, x: int, y: int)
    requires
        x >= 1,
        y >= 1,
    ensures
        pair_hits(n, x, y) != 0 ==> x * x <= n && y * y <= n,
{
    if hit1(n, x, y) {
        assert(x * x <= n && y * y <= n) by (nonlinear_arith)
            requires
                x >= 1,
                y >= 1,
                4 * x * x + y * y == n,
        ;
    }
    if hit2(n, x, y) {
        assert(x * x <= n && y * y <= n) by (nonlinear_arith)
            requires
                x >= 1,
                y >= 1,
                3 * x * x + y * y == n,
        ;
    }
    if hit3(n, x, y) {
        assert(x * x <= n && y * y <= n) by (nonlinear_arith)
            requires
                x > y >= 1,
                3 * x * x - y * y == n,
        ;
    }
}

/// Rows beyond the square root of `n` contribute nothing.
proof fn lemma_row_stable(n: int, x: int, yb1: int, yb2: int)
    requires
        x >= 1,
        0 <= yb1 <= yb2,
        (yb1 + 1) * (yb1 + 1) > n,
    ensures
        row_count(n, x, yb2) == row_count(n, x, yb1),
    decreases yb2 - yb1,
{
    if yb2 > yb1 {
        lemma_row_stable(n, x, yb1, yb2 - 1);
        lemma_hits_support(n, x, yb2);
        assert(yb2 * yb2 > n) by (nonlinear_arith)
            requires
                yb2 >= yb1 + 1 >= 1,
                (yb1 + 1) * (yb1 + 1) > n,
        ;
        assert(pair_hits(n, x, yb2) == 0);
    }
}

/// A whole row at `x` beyond the square root of `n` is empty.
proof fn lemma_row_zero(n: int, x: int, yb: int)
    requires
        x >= 1,
        x * x > n,
    ensures
        row_count(n, x, yb) == 0,
    decreases yb,
{
    if yb > 0 {
        lemma_row_zero(n, x, yb - 1);
        lemma_hits_support(n, x, yb);
        if yb >= 1 {
            assert(pair_hits(n, x, yb) == 0);
        }
    }
}

/// Shrinking the row bound to the square root of `n` preserves the
/// grid count.
proof fn lemma_grid_stable_rows(n: int, xb: int, yb1: int, yb2: int)
    requires
        0 <= yb1 <= yb2,
        (yb1 + 1) * (yb1 + 1) > n,
    ensures
        grid_count(n, xb, yb2) == grid_count(n, xb, yb1),
    decreases xb,
{
    if xb > 0 {
        lemma_grid_stable_rows(n, xb - 1, yb1, yb2);
        lemma_row_stable(n, xb, yb1, yb2);
    }
}

/// Shrinking the column bound to the square root of `n` preserves the
/// grid count.
proof fn lemma_grid_stable_cols(n: int, xb1: int, xb2: int, yb: int)
    requires
        0 <= xb1 <= xb2,
        (xb1 + 1) * (xb1 + 1) > n,
    ensures
        grid_count(n, xb2, yb) == grid_count(n, xb1, yb),
    decreases xb2 - xb1,
{
    if xb2 > xb1 {
        lemma_grid_stable_cols(n, xb1, xb2 - 1, yb);
        assert(xb2 * xb2 > n) by (nonlinear_arith)
            requires
                xb2 >= xb1 + 1 >= 1,
                (xb1 + 1) * (xb1 + 1) > n,
        ;
        lemma_row_zero(n, xb2, yb);
    }
}

/// The toggle parity of `n` computed over any grid bound `b` covering
/// the square root of `n` equals the canonical parity.
proof fn lemma_toggled_bound(n: int, b: int)
    requires
        b >= 1,
        n >= 1,
        (b + 1) * (b + 1) > n,
    ensures
        (grid_count(n, b, b) % 2 == 1) == atkin_toggled(n),
{
    if b <= n {
        lemma_grid_stable_rows(n, n, b, n);
        lemma_grid_stable_cols(n, b, n, b);
        assert(grid_count(n, n, n) == grid_count(n, n, b));
        assert(grid_count(n, n, b) == grid_count(n, b, b));
    } else {
        assert((n + 1) * (n + 1) > n) by (nonlinear_arith)
            requires
                n >= 1,
        ;
        lemma_grid_stable_rows(n, b, n, b);
        lemma_grid_stable_cols(n, n, b, n);
        assert(grid_count(n, b, b) == grid_count(n, b, n));
        assert(grid_count(n, b, n) == grid_count(n, n, n));
    }
}

/// No pair solves any form for a candidate below 5, so such candidates
/// are never toggled.
proof fn lemma_small_never_toggled(n: int)
    requires
        0 <= n <= 4,
    ensures
        !atkin_toggled(n),
        forall|xb: int, yb: int| #[trigger] grid_count(n, xb, yb) == 0,
{
    assert forall|x: int, y: int| x >= 1 && y >= 1 implies #[trigger] pair_hits(n, x, y) == 0 by {
        assert(4 * x * x + y * y >= 5) by (nonlinear_arith)
            requires
                x >= 1,
                y >= 1,
        ;
        if hit2(n, x, y) {
            assert(3 * x * x + y * y >= 4) by (nonlinear_arith)
                requires
                    x >= 1,
                    y >= 1,
            ;
            assert(n == 4);
            assert(n % 12 == 4) by (nonlinear_arith)
                requires
                    n == 4,
            ;
            assert(false);
        }
        if hit3(n, x, y) {
            assert(n % 12 == n) by (nonlinear_arith)
                requires
                    0 <= n <= 4,
            ;
            assert(false);
        }
    }
    assert forall|xb: int, yb: int| #[trigger] grid_count(n, xb, yb) == 0 by {
        lemma_grid_zero_when_no_hits(n, xb, yb);
    }
}

/// A grid with no solving pairs counts zero.
proof fn lemma_grid_zero_when_no_hits(n: int, xb: int, yb: int)
    requires
        forall|x: int, y: int| x >= 1 && y >= 1 ==> #[trigger] pair_hits(n, x, y) == 0,
    ensures
        grid_count(n, xb, yb) == 0,
    decreases xb,
{
    if xb > 0 {
        lemma_grid_zero_when_no_hits(n, xb - 1, yb);
        lemma_row_zero_when_no_hits(n, xb, yb);
    }
}

/// A row with no solving pairs counts zero.
proof fn lemma_row_zero_when_no_hits(n: int, x: int, yb: int)
    requires
        x >= 1,
        forall|y: int| y >= 1 ==> #[trigger] pair_hits(n, x, y) == 0,
    ensures
        row_count(n, x, yb) == 0,
    decreases yb,
{
    if yb > 0 {
        lemma_row_zero_when_no_hits(n, x, yb - 1);
    }
}

/// Adding one toggle flips the parity.
proof fn lemma_parity_flip(c: int)
    requires
        c >= 0,
    ensures
        ((c + 1) % 2 == 1) == !(c % 2 == 1),
{
    assert(((c + 1) % 2 == 1) == !(c % 2 == 1)) by (nonlinear_arith)
        requires
            c >= 0,
    ;
}

/// The integer square root: the largest `r` with `r * r <= n`.
fn isqrt(n: usize) -> (r: usize)
    ensures
        (r as int) * (r as int) <= n as int,
        (r as int + 1) * (r as int + 1) > n as int,
        r <= n,
{
    let mut r: usize = 0;
    while r + 1 <= n / (r + 1)
        invariant
            (r as int) * (r as int) <= n as int,
            r <= n,
            r < usize::MAX,
        decreases n - r,
    {
        proof {
            vstd::arithmetic::div_mod::lemma_fundamental_div_mod(n as int, r as int + 1);
            assert((r as int + 1) * (r as int + 1) <= n as int) by (nonlinear_arith)
                requires
                    r as int + 1 <= (n as int) / (r as int + 1),
                    n as int == (r as int + 1) * ((n as int) / (r as int + 1)) + (n as int) % (
                    r as int + 1),
                    (n as int) % (r as int + 1) >= 0,
            ;
            assert(r as int + 1 <= n as int) by (nonlinear_arith)
                requires
                    (r as int + 1) * (r as int + 1) <= n as int,
                    r >= 0,
            ;
            assert(r as int + 1 < usize::MAX as int) by (nonlinear_arith)
                requires
                    (r as int + 1) * (r as int + 1) <= n as int,
                    n as int <= usize::MAX as int,
                    usize::MAX as int >= 4,
                    r >= 0,
            ;
        }
        r = r + 1;
    }
    proof {
        vstd::arithmetic::div_mod::lemma_fundamental_div_mod(n as int, r as int + 1);
        vstd::arithmetic::div_mod::lemma_mod_bound(n as int, r as int + 1);
        assert((r as int + 1) * (r as int + 1) > n as int) by (nonlinear_arith)
            requires
                r as int + 1 > (n as int) / (r as int + 1),
                n as int == (r as int + 1) * ((n as int) / (r as int + 1)) + (n as int) % (
                r as int + 1),
                0 <= (n as int) % (r as int + 1) < r as int + 1,
        ;
    }
    r
}

/// Run one full toggle-and-eliminate pass against `limit`, from a
/// cleared buffer, and return the flags for `[0, limit]`.  When a
/// cancellation signal is supplied, it is polled once per `(x, y)`
/// pair of the toggling pass and once per marked multiple of the
/// elimination pass; observing it abandons the pass.
#[verifier::rlimit(80)]
fn compute_flags(limit: usize, cancel: Option<&CancellationSignal>) -> (r: Option<Vec<bool>>)
    requires
        5 <= limit,
        limit <= usize::MAX / 5,
    ensures
        match r {
            Some(v) => v@.len() == limit + 1 && forall|i: int|
                0 <= i <= limit ==> v@[i] == atkin_flag(i),
            None => cancel is Some,
        },
{
    let mut v: Vec<bool> = Vec::new();
    while v.len() < limit + 1
        invariant
            limit <= usize::MAX / 5,
            v@.len() <= limit + 1,
            forall|k: int| 0 <= k < v@.len() ==> #[trigger] v@[k] == false,
        decreases limit + 1 - v@.len(),
    {
        v.push(false);
    }
    v[2] = true;
    v[3] = true;
    let b = isqrt(limit);
    proof {
        assert(b >= 2) by (nonlinear_arith)
            requires
                (b as int) * (b as int) <= limit as int,
                (b as int + 1) * (b as int + 1) > limit as int,
                limit >= 5,
                b >= 0,
        ;
    }
    let mut x: usize = 1;
    while x <= b
        invariant
            1 <= x <= b + 1,
            2 <= b <= limit,
            5 <= limit <= usize::MAX / 5,
            (b as int) * (b as int) <= limit as int,
            (b as int + 1) * (b as int + 1) > limit as int,
            v@.len() == limit + 1,
            v@[2] == true,
            v@[3] == true,
            forall|i: int|
                0 <= i <= limit && i != 2 && i != 3 ==> #[trigger] v@[i] == (grid_count(
                    i,
                    x as int - 1,
                    b as int,
                ) % 2 == 1),
        decreases b + 1 - x,
    {
        let mut y: usize = 1;
        while y <= b
            invariant
                1 <= x <= b,
                1 <= y <= b + 1,
                2 <= b <= limit,
                5 <= limit <= usize::MAX / 5,
                (b as int) * (b as int) <= limit as int,
                (b as int + 1) * (b as int + 1) > limit as int,
                v@.len() == limit + 1,
                v@[2] == true,
                v@[3] == true,
                forall|i: int|
                    0 <= i <= limit && i != 2 && i != 3 ==> #[trigger] v@[i] == ((grid_count(
                        i,
                        x as int - 1,
                        b as int,
                    ) + row_count(i, x as int, y as int - 1)) % 2 == 1),
            decreases b + 1 - y,
        {
            if let Some(sig) = cancel {
                if sig.is_set() {
                    return None;
                }
            }
            let ghost xi: int = x as int;
            let ghost yi: int = y as int;
            let ghost base = |i: int| grid_count(i, xi - 1, b as int) + row_count(i, xi, yi - 1);
            proof {
                assert((x as int) * (x as int) <= limit as int) by (nonlinear_arith)
                    requires
                        1 <= x as int <= b as int,
                        (b as int) * (b as int) <= limit as int,
                ;
                assert((y as int) * (y as int) <= limit as int) by (nonlinear_arith)
                    requires
                        1 <= y as int <= b as int,
                        (b as int) * (b as int) <= limit as int,
                ;
            }
            let xx = x * x;
            let yy = y * y;
            proof {
                assert(4 * xi * xi + yi * yi == 4 * (xx as int) + (yy as int) && 3 * xi * xi + yi
                    * yi == 3 * (xx as int) + (yy as int) && 3 * xi * xi - yi * yi == 3 * (
                xx as int) - (yy as int) && 4 * xi * xi + yi * yi >= 5 && 3 * xi * xi + yi * yi
                    >= 4) by (nonlinear_arith)
                    requires
                        xx as int == xi * xi,
                        yy as int == yi * yi,
                        xi >= 1,
                        yi >= 1,
                ;
            }
            // First form: 4x^2 + y^2.
            let n1 = 4 * xx + yy;
            let ghost mid0 = v@;
            if n1 <= limit && (n1 % 12 == 1 || n1 % 12 == 5) {
                proof {
                    assert(n1 as int >= 5);
                }
                let cur = v[n1];
                v[n1] = !cur;
            }
            proof {
                assert forall|i: int| 0 <= i <= limit && i != 2 && i != 3 implies #[trigger] v@[i]
                    == ((base(i) + hits1(i, xi, yi)) % 2 == 1) by {
                    if i == n1 as int && hit1(i, xi, yi) {
                        lemma_parity_flip(base(i) as int);
                        assert(v@[i] == !mid0[i]);
                    } else {
                        assert(hits1(i, xi, yi) == 0);
                        assert(v@[i] == mid0[i]);
                    }
                }
            }
            // Second form: 3x^2 + y^2.
            let n2 = 3 * xx + yy;
            let ghost mid1 = v@;
            if n2 <= limit && n2 % 12 == 7 {
                proof {
                    assert(n2 as int >= 4);
                    assert(n2 != 2 && n2 != 3);
                    if n2 == 4 {
                        assert(4int % 12 == 4) by (nonlinear_arith);
                        assert(false);
                    }
                }
                let cur = v[n2];
                v[n2] = !cur;
            }
            proof {
                assert forall|i: int| 0 <= i <= limit && i != 2 && i != 3 implies #[trigger] v@[i]
                    == ((base(i) + hits1(i, xi, yi) + hits2(i, xi, yi)) % 2 == 1) by {
                    if i == n2 as int && hit2(i, xi, yi) {
                        lemma_parity_flip((base(i) + hits1(i, xi, yi)) as int);
                        assert(v@[i] == !mid1[i]);
                    } else {
                        assert(hits2(i, xi, yi) == 0);
                        assert(v@[i] == mid1[i]);
                    }
                }
            }
            // Third form: 3x^2 - y^2, only above the diagonal.
            let ghost mid2 = v@;
            if x > y {
                proof {
                    assert(3 * (xx as int) >= yy as int) by (nonlinear_arith)
                        requires
                            xx as int == xi * xi,
                            yy as int == yi * yi,
                            xi > yi >= 1,
                    ;
                }
                let n3 = 3 * xx - yy;
                if n3 <= limit && n3 % 12 == 11 {
                    proof {
                        assert(n3 != 2 && n3 != 3) by {
                            if n3 == 2 {
                                assert(2int % 12 == 2) by (nonlinear_arith);
                            }
                            if n3 == 3 {
                                assert(3int % 12 == 3) by (nonlinear_arith);
                            }
                        }
                    }
                    let cur = v[n3];
                    v[n3] = !cur;
                }
            }
            proof {
                assert forall|i: int| 0 <= i <= limit && i != 2 && i != 3 implies #[trigger] v@[i]
                    == ((base(i) + pair_hits(i, xi, yi)) % 2 == 1) by {
                    if hit3(i, xi, yi) && i <= limit {
                        assert(x > y);
                        assert(i == 3 * xi * xi - yi * yi);
                        lemma_parity_flip((base(i) + hits1(i, xi, yi) + hits2(i, xi, yi)) as int);
                        assert(v@[i] == !mid2[i]);
                    } else {
                        assert(hits3(i, xi, yi) == 0);
                        assert(v@[i] == mid2[i]);
                    }
                }
                assert forall|i: int| 0 <= i <= limit && i != 2 && i != 3 implies #[trigger] v@[i]
                    == ((grid_count(i, xi - 1, b as int) + row_count(i, xi, yi)) % 2 == 1) by {
                    assert(row_count(i, xi, yi) == row_count(i, xi, yi - 1) + pair_hits(
                        i,
                        xi,
                        yi,
                    ));
                }
            }
            y = y + 1;
        }
        proof {
            assert forall|i: int| 0 <= i <= limit && i != 2 && i != 3 implies #[trigger] v@[i] == (
            grid_count(i, x as int, b as int) % 2 == 1) by {
                assert(grid_count(i, x as int, b as int) == grid_count(i, x as int - 1, b as int)
                    + row_count(i, x as int, b as int));
            }
        }
        x = x + 1;
    }
    proof {
        // The grid bound b covers the square root of every index, so
        // the computed parity is the canonical toggle parity.
        assert forall|i: int| 0 <= i <= limit && i != 2 && i != 3 implies #[trigger] v@[i]
            == atkin_toggled(i) by {
            if i == 0 {
                lemma_small_never_toggled(0);
                assert(grid_count(0, b as int, b as int) == 0);
            } else {
                lemma_toggled_bound(i, b as int);
            }
        }
    }
    // Square-free elimination: clear every multiple of r^2 for each
    // surviving r >= 5.
    let mut r: usize = 5;
    while r <= b
        invariant
            5 <= r,
            r <= b + 1 || r == 5,
            2 <= b <= limit,
            5 <= limit <= usize::MAX / 5,
            (b as int) * (b as int) <= limit as int,
            (b as int + 1) * (b as int + 1) > limit as int,
            v@.len() == limit + 1,
            v@[2] == true,
            v@[3] == true,
            forall|i: int|
                0 <= i <= limit && i != 2 && i != 3 ==> #[trigger] v@[i] == (atkin_toggled(i) && !(
                exists|q: int|
                    5 <= q < r && q * q <= i && #[trigger] atkin_toggled(q) && i % (q * q) == 0)),
        decreases b + 1 - r,
    {
        proof {
            assert(r <= limit) by (nonlinear_arith)
                requires
                    r <= b,
                    (b as int) * (b as int) <= limit as int,
                    b >= 2,
            ;
        }
        let keep = v[r];
        if keep {
            proof {
                assert((r as int) * (r as int) <= limit as int) by (nonlinear_arith)
                    requires
                        r <= b,
                        (b as int) * (b as int) <= limit as int,
                        r >= 5,
                        b >= 2,
                ;
            }
            let rr = r * r;
            let mut m = rr;
            let ghost e1 = v@;
            proof {
                assert(rr >= 25) by (nonlinear_arith)
                    requires
                        rr as int == (r as int) * (r as int),
                        r >= 5,
                ;
                vstd::arithmetic::div_mod::lemma_mod_self_0(rr as int);
            }
            while m <= limit
                invariant
                    5 <= r <= b,
                    25 <= rr,
                    rr as int == (r as int) * (r as int),
                    rr <= limit <= usize::MAX / 5,
                    v@.len() == limit + 1,
                    e1.len() == limit + 1,
                    (m as int) % (rr as int) == 0,
                    m >= rr,
                    forall|i: int|
                        0 <= i <= limit ==> #[trigger] v@[i] == (e1[i] && !(i % (rr as int) == 0
                            && rr <= i && i < m)),
                decreases limit + rr - m,
            {
                if let Some(sig) = cancel {
                    if sig.is_set() {
                        return None;
                    }
                }
                let ghost before = v@;
                v[m] = false;
                proof {
                    assert forall|i: int|
                        0 <= i <= limit implies #[trigger] v@[i] == (e1[i] && !(i % (rr as int)
                        == 0 && rr <= i && i < m + rr)) by {
                        if i == m {
                            assert((m as int) % (rr as int) == 0 && rr <= m && m < m + rr);
                        } else {
                            assert(v@[i] == before[i]);
                            if i % (rr as int) == 0 && rr <= i && i < m + rr && !(i < m) {
                                lemma_multiples_spacing(i, m as int, rr as int);
                                assert(false);
                            }
                        }
                    }
                    vstd::arithmetic::div_mod::lemma_mod_add_multiples_vanish(
                        m as int,
                        rr as int,
                    );
                }
                m = m + rr;
            }
            proof {
                assert(25 <= rr && rr <= limit);
                assert(2int % (rr as int) == 2 && 3int % (rr as int) == 3) by {
                    vstd::arithmetic::div_mod::lemma_small_mod(2, rr as nat);
                    vstd::arithmetic::div_mod::lemma_small_mod(3, rr as nat);
                }
                assert(v@[2] == true && v@[3] == true);
                // keep == atkin_toggled(r) with no earlier eliminator;
                // in particular r is toggled, so r^2 now eliminates.
                assert(e1[r as int] == true);
                assert(atkin_toggled(r as int));
                assert forall|i: int|
                    0 <= i <= limit && i != 2 && i != 3 implies #[trigger] v@[i] == (
                atkin_toggled(i) && !(exists|q: int|
                    5 <= q < r + 1 && q * q <= i && #[trigger] atkin_toggled(q) && i % (q * q)
                        == 0)) by {
                    assert(v@[i] == (e1[i] && !(i % (rr as int) == 0 && rr <= i)));
                    if e1[i] && !(i % (rr as int) == 0 && rr <= i) {
                        assert(atkin_toggled(i));
                        if exists|q: int|
                            5 <= q < r + 1 && q * q <= i && #[trigger] atkin_toggled(q) && i % (q
                                * q) == 0 {
                            let q = choose|q: int|
                                5 <= q < r + 1 && q * q <= i && #[trigger] atkin_toggled(q) && i
                                    % (q * q) == 0;
                            if q < r {
                                assert(false);
                            } else {
                                assert(q == r);
                                assert(i % (rr as int) == 0 && rr <= i);
                                assert(false);
                            }
                        }
                    } else {
                        if atkin_toggled(i) && !(exists|q: int|
                            5 <= q < r + 1 && q * q <= i && #[trigger] atkin_toggled(q) && i % (q
                                * q) == 0) {
                            if !e1[i] {
                                let q = choose|q: int|
                                    5 <= q < r && q * q <= i && #[trigger] atkin_toggled(q) && i
                                        % (q * q) == 0;
                                assert(5 <= q < r + 1 && q * q <= i && atkin_toggled(q) && i % (q
                                    * q) == 0);
                                assert(false);
                            } else {
                                assert(i % (rr as int) == 0 && rr <= i);
                                assert(5 <= r < r + 1 && (r as int) * (r as int) <= i
                                    && atkin_toggled(r as int) && i % ((r as int) * (r as int))
                                    == 0);
                                assert(false);
                            }
                        }
                    }
                }
            }
        } else {
            proof {
                assert forall|i: int|
                    0 <= i <= limit && i != 2 && i != 3 implies #[trigger] v@[i] == (
                atkin_toggled(i) && !(exists|q: int|
                    5 <= q < r + 1 && q * q <= i && #[trigger] atkin_toggled(q) && i % (q * q)
                        == 0)) by {
                    if !atkin_toggled(r as int) {
                        // r cannot eliminate anything: the only new
                        // candidate witness is not toggled.
                        assert forall|q: int|
                            5 <= q < r + 1 && q * q <= i && #[trigger] atkin_toggled(q) && i % (q
                                * q) == 0 implies 5 <= q < r && q * q <= i && atkin_toggled(q)
                            && i % (q * q) == 0 by {
                            assert(q != r);
                        }
                    } else {
                        // r is toggled but was itself eliminated by an
                        // earlier q0, whose square also divides every
                        // multiple of r^2.
                        assert(v@[r as int] == false);
                        assert(exists|q: int|
                            5 <= q < r && q * q <= r as int && #[trigger] atkin_toggled(q) && (
                            r as int) % (q * q) == 0);
                        let q0 = choose|q: int|
                            5 <= q < r && q * q <= r as int && #[trigger] atkin_toggled(q) && (
                            r as int) % (q * q) == 0;
                        assert forall|q: int|
                            5 <= q < r + 1 && q * q <= i && #[trigger] atkin_toggled(q) && i % (q
                                * q) == 0 implies exists|p: int|
                            5 <= p < r && p * p <= i && #[trigger] atkin_toggled(p) && i % (p * p)
                                == 0 by {
                            if q == r {
                                let ri = r as int;
                                assert(1 <= ri * ri && 1 <= q0 * q0) by (nonlinear_arith)
                                    requires
                                        ri >= 5,
                                        q0 >= 5,
                                ;
                                vstd::arithmetic::div_mod::lemma_mod_multiples_basic(ri, ri);
                                assert((ri * ri) % ri == 0);
                                lemma_divides_transitive(ri, ri * ri, i);
                                assert(i % ri == 0);
                                lemma_divides_transitive(q0 * q0, ri, i);
                                assert(i % (q0 * q0) == 0);
                                assert(q0 * q0 <= ri <= i) by (nonlinear_arith)
                                    requires
                                        q0 * q0 <= ri,
                                        ri * ri <= i,
                                        ri >= 5,
                                ;
                                assert(5 <= q0 < r && q0 * q0 <= i && atkin_toggled(q0) && i % (
                                q0 * q0) == 0);
                            } else {
                                assert(5 <= q < r && q * q <= i && atkin_toggled(q) && i % (q * q)
                                    == 0);
                            }
                        }
                    }
                }
            }
        }
        r = r + 1;
    }
    proof {
        // Any eliminating witness has its square below the limit, so
        // the bounded scan found them all.
        assert forall|i: int| 0 <= i <= limit implies #[trigger] v@[i] == atkin_flag(i) by {
            if i != 2 && i != 3 {
                assert(v@[i] == (atkin_toggled(i) && !(exists|q: int|
                    5 <= q < r && q * q <= i && #[trigger] atkin_toggled(q) && i % (q * q)
                        == 0)));
                if atkin_toggled(i) {
                    if exists|q: int|
                        5 <= q && q * q <= i && #[trigger] atkin_toggled(q) && i % (q * q) == 0 {
                        let q = choose|q: int|
                            5 <= q && q * q <= i && #[trigger] atkin_toggled(q) && i % (q * q)
                                == 0;
                        assert(q <= b) by (nonlinear_arith)
                            requires
                                q * q <= i,
                                i <= limit as int,
                                (b as int + 1) * (b as int + 1) > limit as int,
                                q >= 5,
                                b >= 2,
                        ;
                        assert(5 <= q < r && q * q <= i && atkin_toggled(q) && i % (q * q) == 0);
                    }
                }
                assert(v@[i] == atkin_survives(i));
            }
        }
    }
    Some(v)
}

/// The growing quadratic-form sieve: flag buffer over `[0, limit]`, an
/// emission cursor, and the (ghost) history of emitted values.
pub struct AtkinEngine {
    sieve: Vec<bool>,
    limit: usize,
    next: usize,
    emitted: Ghost<Seq<u64>>,
    live: Ghost<bool>,
}

impl AtkinEngine {
    /// The emission cursor: every index below it has been examined.
    pub closed spec fn cursor(self) -> int {
        self.next as int
    }

    /// The current limit: flags cover `[0, limit]`.
    pub closed spec fn limit(self) -> int {
        self.limit as int
    }

    /// The values emitted so far, in emission order.
    pub closed spec fn emitted(self) -> Seq<u64> {
        self.emitted@
    }

    /// Whether the engine is still running (no cancellation observed).
    pub closed spec fn live(self) -> bool {
        self.live@
    }

    /// Well-formedness: while live, every index up to the limit holds
    /// its canonical flag, and the emission history is exactly the
    /// flagged indices below the cursor.
    pub closed spec fn wf(self) -> bool {
        self.live@ ==> {
            &&& 5 <= self.limit
            &&& self.limit <= usize::MAX as int / 5
            &&& self.sieve@.len() == self.limit + 1
            &&& 2 <= self.next <= self.limit + 1
            &&& forall|i: int| 0 <= i <= self.limit ==> #[trigger] self.sieve@[i] == atkin_flag(i)
            &&& self.emitted@ == atkin_seq(self.next as int)
        }
    }

    /// A fresh engine: one full pass against the initial limit 1000,
    /// cursor at 2, nothing emitted.
    pub fn new() -> (s: Self)
        ensures
            s.wf(),
            s.live(),
            s.limit() == 1000,
            s.cursor() == 2,
            s.emitted() == Seq::<u64>::empty(),
    {
        let v = compute_flags(1000, None).unwrap();
        AtkinEngine {
            sieve: v,
            limit: 1000,
            next: 2,
            emitted: Ghost(Seq::empty()),
            live: Ghost(true),
        }
    }

    /// Whether every index up to the limit has been examined, so that
    /// only a growth step can produce further values.
    pub fn needs_growth(&self) -> (r: bool)
        requires
            self.wf(),
            self.live(),
        ensures
            r == (self.cursor() == self.limit() + 1),
    {
        self.next > self.limit
    }

    /// Whether the limit may still double without overflowing.
    pub fn can_grow(&self) -> (r: bool)
        ensures
            r == (self.limit() <= usize::MAX as int / 16),
    {
        self.limit <= usize::MAX / 16
    }

    /// Examine the current cursor position and move past it; the
    /// result is the index itself exactly when its flag survived the
    /// toggle-and-eliminate pass.
    pub fn emit_step(&mut self) -> (r: Option<u64>)
        requires
            old(self).wf(),
            old(self).live(),
            old(self).cursor() <= old(self).limit(),
        ensures
            final(self).wf(),
            final(self).live(),
            final(self).limit() == old(self).limit(),
            final(self).cursor() == old(self).cursor() + 1,
            r == if atkin_flag(old(self).cursor()) {
                Some(old(self).cursor() as u64)
            } else {
                Option::<u64>::None
            },
            atkin_flag(old(self).cursor()) ==> final(self).emitted() == old(self).emitted().push(
                old(self).cursor() as u64,
            ),
            !atkin_flag(old(self).cursor()) ==> final(self).emitted() == old(self).emitted(),
    {
        let i = self.next;
        let f = self.sieve[i];
        self.next = i + 1;
        if f {
            self.emitted = Ghost(self.emitted@.push(i as u64));
            proof {
                assert(atkin_seq(i as int + 1) == atkin_seq(i as int).push(i as u64));
            }
            Some(i as u64)
        } else {
            proof {
                assert(atkin_seq(i as int + 1) == atkin_seq(i as int));
            }
            None
        }
    }

    /// Double the limit and recompute the entire toggling and
    /// elimination pass against it, polling the cancellation signal
    /// inside both nested loops of the toggling pass at the
    /// granularity of one `(x, y)` pair.  The flag of an index does
    /// not depend on the limit, so the recomputation reproduces every
    /// old flag: the cursor and the emission history are unchanged,
    /// and growth never re-emits nor skips a value.
    pub fn grow(&mut self, cancel: &CancellationSignal) -> (r: bool)
        requires
            old(self).wf(),
            old(self).live(),
            old(self).cursor() == old(self).limit() + 1,
            old(self).limit() <= usize::MAX as int / 16,
        ensures
            r ==> {
                &&& final(self).wf()
                &&& final(self).live()
                &&& final(self).limit() == 2 * old(self).limit()
                &&& final(self).cursor() == old(self).cursor()
                &&& final(self).emitted() == old(self).emitted()
            },
            !r ==> !final(self).live(),
    {
        let new_limit = self.limit * 2;
        match compute_flags(new_limit, Some(cancel)) {
            Some(v) => {
                self.sieve = v;
                self.limit = new_limit;
                true
            },
            None => {
                self.live = Ghost(false);
                false
            },
        }
    }

    /// The law the engine maintains: while live and well-formed, the
    /// emission history is exactly the flagged indices below the
    /// cursor, in increasing order, independent of how many growth
    /// steps produced the current limit.
    pub proof fn lemma_emitted_is_flag_stream(&self)
        requires
            self.wf(),
            self.live(),
        ensures
            self.emitted() == atkin_seq(self.cursor()),
    {
    }
}

/// The flagged indices in `[a, b)`, in increasing order: what a growth
/// step from limit `a` to limit `b` is allowed to emit.
pub open spec fn atkin_seq_range(a: int, b: int) -> Seq<u64>
    decreases b - a,
{
    if b <= a {
        Seq::empty()
    } else if atkin_flag(b - 1) {
        atkin_seq_range(a, b - 1).push((b - 1) as u64)
    } else {
        atkin_seq_range(a, b - 1)
    }
}

/// Law: the flag of an index does not depend on the limit, so the
/// emissions after a growth step are the flagged indices of the new
/// range and nothing else - growth never re-emits an already-emitted
/// value nor skips one.
pub proof fn lemma_atkin_seq_split(a: int, b: int)
    requires
        a <= b,
    ensures
        atkin_seq(b) == atkin_seq(a) + atkin_seq_range(a, b),
    decreases b - a,
{
    if b <= a {
        assert(atkin_seq(b) =~= atkin_seq(a) + atkin_seq_range(a, b));
    } else {
        lemma_atkin_seq_split(a, b - 1);
        if b <= 2 {
            if 0 <= b - 1 {
                lemma_small_never_toggled(b - 1);
            }
            assert(!atkin_flag(b - 1));
        }
        assert(atkin_seq(b) =~= atkin_seq(a) + atkin_seq_range(a, b));
    }
}

/// `atkin_seq(c)` holds exactly the flagged indices below `c`, each at
/// least 2, in strictly increasing order.
pub proof fn lemma_atkin_seq_members(c: int)
    requires
        c <= u64::MAX as int + 1,
    ensures
        forall|k: int|
            0 <= k < atkin_seq(c).len() ==> 2 <= #[trigger] atkin_seq(c)[k] && (atkin_seq(
                c,
            )[k] as int) < c && atkin_flag(atkin_seq(c)[k] as int),
        forall|k1: int, k2: int|
            0 <= k1 < k2 < atkin_seq(c).len() ==> atkin_seq(c)[k1] < atkin_seq(c)[k2],
        forall|p: u64| 2 <= p && (p as int) < c && atkin_flag(p as int) ==> atkin_seq(c).contains(p),
    decreases c,
{
    if c <= 2 {
    } else {
        lemma_atkin_seq_members(c - 1);
        let prev = atkin_seq(c - 1);
        let cur = atkin_seq(c);
        if atkin_flag(c - 1) {
            assert(c - 1 >= 2) by {
                if c - 1 < 2 {
                    assert(atkin_survives(c - 1));
                    lemma_small_never_toggled(c - 1);
                    assert(false);
                }
            }
        }
        assert forall|p: u64| 2 <= p && (p as int) < c && atkin_flag(p as int) implies cur.contains(
            p,
        ) by {
            if (p as int) < c - 1 {
                assert(prev.contains(p));
                let k = choose|k: int| 0 <= k < prev.len() && prev[k] == p;
                assert(cur[k] == p);
            } else {
                assert(p as int == c - 1);
                assert(cur[cur.len() - 1] == p);
            }
        }
    }
}

} // verus!
