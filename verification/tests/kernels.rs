//! The primality kernels against a ground-truth oracle.

use prime_search::miller::{is_prime_miller_rabin, miller_rabin};
use prime_search::modexp::{mod_pow, modpow};
use prime_search::trial::{is_prime_trial_division, primes_in_range_trial, TrialDivisionStream};

/// Ground truth: primality by naive division over every candidate divisor.
fn oracle_is_prime(n: u64) -> bool {
    if n < 2 {
        return false;
    }
    let mut d = 2u64;
    while d < n {
        if n % d == 0 {
            return false;
        }
        d += 1;
    }
    true
}

#[test]
fn trial_division_small_values() {
    assert!(!is_prime_trial_division(0));
    assert!(!is_prime_trial_division(1));
    assert!(is_prime_trial_division(2));
    assert!(is_prime_trial_division(3));
    assert!(!is_prime_trial_division(4));
    assert!(is_prime_trial_division(5));
    assert!(!is_prime_trial_division(25));
    assert!(!is_prime_trial_division(49));
    assert!(is_prime_trial_division(97));
    assert!(!is_prime_trial_division(1001));
    assert!(is_prime_trial_division(1009));
    assert!(is_prime_trial_division(104729));
}

#[test]
fn trial_division_agrees_with_oracle() {
    for n in 0..5000u64 {
        assert_eq!(
            is_prime_trial_division(n),
            oracle_is_prime(n),
            "disagreement at {}",
            n
        );
    }
}

#[test]
fn primes_in_range_matches_oracle() {
    let primes = primes_in_range_trial(0, 200);
    let expected: Vec<u64> = (0..=200).filter(|&n| oracle_is_prime(n)).collect();
    assert_eq!(primes, expected);
    let high = primes_in_range_trial(1000, 1100);
    assert_eq!(high, vec![1009, 1013, 1019, 1021, 1031, 1033, 1039, 1049, 1051, 1061, 1063, 1069, 1087, 1091, 1093, 1097]);
    let empty = primes_in_range_trial(24, 28);
    assert!(empty.is_empty());
}

#[test]
fn miller_rabin_no_false_negatives() {
    // A prime can never be rejected, whatever bases are drawn.
    for n in 0..20000u64 {
        if is_prime_trial_division(n) {
            assert!(is_prime_miller_rabin(n), "false negative at {}", n);
        }
    }
}

#[test]
fn miller_rabin_false_positive_rate_is_tiny() {
    // Each composite passes five random bases with probability at
    // most 4^-5; empirically the rate over a large sample is ~0.
    let mut composites = 0u64;
    let mut false_positives = 0u64;
    for n in 4..30000u64 {
        if !is_prime_trial_division(n) {
            composites += 1;
            if is_prime_miller_rabin(n) {
                false_positives += 1;
            }
        }
    }
    assert!(composites > 25000);
    assert!(
        false_positives * 500 <= composites,
        "false positive rate too high: {}/{}",
        false_positives,
        composites
    );
}

#[test]
fn miller_rabin_rejects_carmichael_numbers() {
    // Carmichael numbers fool the Fermat test for every coprime base,
    // but not the strong (Miller-Rabin) test.
    let carmichaels = [
        561u64, 1105, 1729, 2465, 2821, 6601, 8911, 10585, 15841, 29341, 41041, 46657, 52633,
        62745, 63973, 75361,
    ];
    for &n in &carmichaels {
        let mut rejected = false;
        for _ in 0..10 {
            if !is_prime_miller_rabin(n) {
                rejected = true;
                break;
            }
        }
        assert!(rejected, "{} was never rejected in ten runs", n);
    }
}

#[test]
fn miller_rabin_with_pinned_witnesses() {
    // Deterministic checks of the modular-exponentiation path with an
    // injected base list.
    // 2047 = 23 * 89 is a strong pseudoprime to base 2 ...
    assert!(miller_rabin(2047, &vec![2]));
    // ... but base 3 is a witness.
    assert!(!miller_rabin(2047, &vec![2, 3]));
    // 561 is Carmichael; base 2 already witnesses it.
    assert!(!miller_rabin(561, &vec![2]));
    // A true prime passes any bases.
    assert!(miller_rabin(104729, &vec![2, 3, 5, 7, 11]));
    // Small cases are decided before any base is used.
    assert!(!miller_rabin(0, &vec![]));
    assert!(!miller_rabin(1, &vec![]));
    assert!(miller_rabin(2, &vec![]));
    assert!(miller_rabin(3, &vec![]));
    assert!(!miller_rabin(4, &vec![2]));
    assert!(!miller_rabin(100, &vec![5]));
}

#[test]
fn mod_pow_exact_values() {
    assert_eq!(mod_pow(2, 10, 1000), 24);
    assert_eq!(mod_pow(5, 0, 7), 1);
    assert_eq!(mod_pow(0, 0, 7), 1);
    assert_eq!(mod_pow(7, 1, 5), 2);
    assert_eq!(mod_pow(3, 100, 7), mod_pow(3, 100 % 6, 7));
    // Modulus 1 sends everything to 0.
    assert_eq!(mod_pow(123, 456, 1), 0);
    // Widened arithmetic: squaring just below 2^64 cannot overflow.
    let m = u64::MAX;
    assert_eq!(mod_pow(m - 1, 2, m), 1);
    assert_eq!(modpow(m - 1, 2, m), 1);
    assert_eq!(modpow(2, 10, 1000), 24);
    assert_eq!(modpow(123, 456, 1), 0);
    // Fermat's little theorem on a large prime.
    let p = 1_000_000_007u64;
    assert_eq!(mod_pow(123456789, p - 1, p), 1);
}

#[test]
fn trial_division_stream_emits_primes_in_order() {
    let mut stream = TrialDivisionStream::new();
    let mut collected = Vec::new();
    for _ in 0..99 {
        assert!(stream.can_advance());
        if let Some(p) = stream.advance() {
            collected.push(p);
        }
    }
    // Cursor walked 2..=100: the primes up to 100, in order.
    assert_eq!(
        collected,
        vec![2, 3, 5, 7, 11, 13, 17, 19, 23, 29, 31, 37, 41, 43, 47, 53, 59, 61, 67, 71, 73, 79,
            83, 89, 97]
    );
}
