//! Modular exponentiation by repeated squaring, computed in a widened
//! integer domain so that intermediate products cannot overflow.

use vstd::prelude::*;
use vstd::arithmetic::power::{
    lemma_pow0, lemma_pow1, lemma_pow_adds, lemma_pow_mod_noop, lemma_pow_multiplies,
    lemma_square_is_pow2, pow,
};
use vstd::arithmetic::div_mod::{
    lemma_mod_bound, lemma_mul_mod_noop_general, lemma_mul_mod_noop_right, lemma_small_mod,
};
use vstd::arithmetic::mul::{lemma_mul_is_associative, lemma_mul_is_commutative};

verus! {

/// `base ^ exponent mod modulus`, or 0 when the modulus is 1.
///
/// Each squaring and each multiplication is carried out in `u128`, so the
/// intermediate products of two values below `2^64` cannot overflow.
pub fn mod_pow(base: u64, exponent: u64, modulus: u64) -> (r: u64)
    requires
        modulus >= 1,
    ensures
        modulus == 1 ==> r == 0,
        modulus > 1 ==> r as int == pow(base as int, exponent as nat) % (modulus as int),
        r < modulus,
{
    if modulus == 1 {
        return 0;
    }
    let m: u128 = modulus as u128;
    let ghost mi: int = modulus as int;
    let ghost b0: int = base as int;
    let ghost e0: nat = exponent as nat;
    let mut result: u128 = 1;
    let mut b: u128 = (base as u128) % m;
    let mut e: u64 = exponent;
    proof {
        lemma_mod_bound(base as int, mi);
        lemma_pow_mod_noop(b0, e0, mi);
        assert(pow(b as int, e as nat) % mi == pow(b0, e0) % mi);
    }
    while e > 0
        invariant
            2 <= mi <= u64::MAX,
            m == mi,
            (result as int) < mi,
            (b as int) < mi,
            0 <= result,
            0 <= b,
            ((result as int) * pow(b as int, e as nat)) % mi == pow(b0, e0) % mi,
        decreases e,
    {
        let ghost ri: int = result as int;
        let ghost bi: int = b as int;
        let ghost k: nat = (e / 2) as nat;
        proof {
            assert(result * b < m * m && b * b < m * m && m * m <= u128::MAX)
                by (nonlinear_arith)
                requires
                    0 <= result < m,
                    0 <= b < m,
                    2 <= m <= u64::MAX as u128,
            ;
            // pow(b, e) in terms of the halved exponent.
            lemma_pow_multiplies(bi, 2, k);
            lemma_square_is_pow2(bi);
            assert(pow(bi * bi, k) == pow(bi, 2 * k));
            if e % 2 == 1 {
                assert(e == 2 * k + 1);
                lemma_pow_adds(bi, 2 * k, 1);
                lemma_pow1(bi);
                assert(pow(bi, e as nat) == pow(bi * bi, k) * bi);
            } else {
                assert(e == 2 * k);
                assert(pow(bi, e as nat) == pow(bi * bi, k));
            }
        }
        if e % 2 == 1 {
            result = (result * b) % m;
            proof {
                lemma_pow_mod_noop(bi * bi, k, mi);
                lemma_mul_mod_noop_right(ri * bi, pow(bi * bi, k), mi);
                lemma_mul_mod_noop_general(ri * bi, pow((bi * bi) % mi, k), mi);
                assert(result as int == (ri * bi) % mi);
                // ((ri*bi)%m * pow((b*b)%m, k)) % m == ((ri*bi) * pow(b*b, k)) % m
                assert(((result as int) * pow(((bi * bi) % mi), k)) % mi == ((ri * bi) * pow(
                    bi * bi,
                    k,
                )) % mi) by {
                    lemma_mul_mod_noop_general(ri * bi, pow(bi * bi, k), mi);
                    lemma_mul_mod_noop_right((ri * bi) % mi, pow(bi * bi, k), mi);
                }
                assert((ri * bi) * pow(bi * bi, k) == ri * (pow(bi * bi, k) * bi)) by {
                    lemma_mul_is_associative(ri, bi, pow(bi * bi, k));
                    lemma_mul_is_commutative(bi, pow(bi * bi, k));
                    lemma_mul_is_associative(ri, pow(bi * bi, k), bi);
                }
                assert(ri * (pow(bi * bi, k) * bi) == ri * pow(bi, e as nat));
            }
        } else {
            proof {
                lemma_pow_mod_noop(bi * bi, k, mi);
                lemma_mul_mod_noop_right(ri, pow(bi * bi, k), mi);
                lemma_mul_mod_noop_right(ri, pow(((bi * bi) % mi), k), mi);
                assert((ri * pow(((bi * bi) % mi), k)) % mi == (ri * pow(bi * bi, k)) % mi);
            }
        }
        b = (b * b) % m;
        e = e / 2;
        proof {
            lemma_mod_bound(ri * bi, mi);
            lemma_mod_bound(bi * bi, mi);
            assert(b as int == (bi * bi) % mi);
            assert(((result as int) * pow(b as int, e as nat)) % mi == pow(b0, e0) % mi);
        }
    }
    proof {
        lemma_pow0(b as int);
        assert((result as int) * 1 == result as int);
        lemma_small_mod(result as nat, mi as nat);
        assert(result as int == pow(b0, e0) % mi);
    }
    result as u64
}

/// `base ^ exp mod modu`: the same operation under the name used by the
/// concurrent engine's randomized-witness kernel.
pub fn modpow(base: u64, exp: u64, modu: u64) -> (r: u64)
    requires
        modu >= 1,
    ensures
        modu == 1 ==> r == 0,
        modu > 1 ==> r as int == pow(base as int, exp as nat) % (modu as int),
        r < modu,
{
    mod_pow(base, exp, modu)
}

} // verus!
