//! The two growing sieve engines against the classical prime set.

use prime_search::atkin::AtkinEngine;
use prime_search::cancel::CancellationSignal;
use prime_search::eratosthenes::{SieveEngine, SieveEvent};
use prime_search::trial::primes_in_range_trial;

#[test]
fn sieve_emits_exactly_the_primes_below_10000() {
    let signal = CancellationSignal::new();
    let mut engine = SieveEngine::new();
    let mut emitted: Vec<u64> = Vec::new();
    // Step the cursor across [2, 10000), growing on exhaustion.
    let mut steps = 0usize;
    while steps < 10_000 - 2 {
        if engine.needs_growth() {
            assert!(engine.can_grow());
            assert!(engine.grow(&signal));
            continue;
        }
        match engine.step(&signal) {
            SieveEvent::Prime(p) => emitted.push(p),
            SieveEvent::Advanced => {}
            SieveEvent::Cancelled => panic!("unexpected cancellation"),
        }
        steps += 1;
    }
    let expected = primes_in_range_trial(2, 9999);
    assert_eq!(emitted, expected);
    assert_eq!(emitted.len(), 1229);
}

#[test]
fn sieve_growth_never_reemits_and_never_skips() {
    let signal = CancellationSignal::new();
    let mut engine = SieveEngine::new();
    // Phase one: exhaust the initial extent of 1000.
    let mut first: Vec<u64> = Vec::new();
    for _ in 0..(1000 - 2) {
        match engine.step(&signal) {
            SieveEvent::Prime(p) => first.push(p),
            SieveEvent::Advanced => {}
            SieveEvent::Cancelled => panic!("unexpected cancellation"),
        }
    }
    assert!(engine.needs_growth());
    assert_eq!(first, primes_in_range_trial(2, 999));
    // Phase two: one growth step, then scan the doubled extent.
    assert!(engine.grow(&signal));
    let mut second: Vec<u64> = Vec::new();
    for _ in 0..1000 {
        match engine.step(&signal) {
            SieveEvent::Prime(p) => second.push(p),
            SieveEvent::Advanced => {}
            SieveEvent::Cancelled => panic!("unexpected cancellation"),
        }
    }
    // The emissions after growth are exactly the primes of the new
    // range: the same set a from-scratch sieve of [2, 2000) yields
    // minus the primes below 1000.
    assert_eq!(second, primes_in_range_trial(1000, 1999));
    let mut all = first.clone();
    all.extend_from_slice(&second);
    assert_eq!(all, primes_in_range_trial(2, 1999));
    for w in all.windows(2) {
        assert!(w[0] < w[1], "not strictly increasing: {} {}", w[0], w[1]);
    }
}

#[test]
fn atkin_emits_exactly_the_primes_below_10000() {
    let signal = CancellationSignal::new();
    let mut engine = AtkinEngine::new();
    let mut emitted: Vec<u64> = Vec::new();
    // Walk the emission cursor across [2, 10000], growing on
    // exhaustion; stop once the limit covers 10000 and the cursor
    // passed it.
    loop {
        if engine.needs_growth() {
            assert!(engine.can_grow());
            assert!(engine.grow(&signal));
            continue;
        }
        if let Some(p) = engine.emit_step() {
            if p > 10_000 {
                break;
            }
            emitted.push(p);
        }
    }
    let expected = primes_in_range_trial(2, 10_000);
    assert_eq!(emitted, expected);
}

#[test]
fn atkin_growth_never_reemits_and_never_skips() {
    let signal = CancellationSignal::new();
    let mut engine = AtkinEngine::new();
    let mut first: Vec<u64> = Vec::new();
    for _ in 0..999 {
        if let Some(p) = engine.emit_step() {
            first.push(p);
        }
    }
    assert!(engine.needs_growth());
    assert_eq!(first, primes_in_range_trial(2, 1000));
    // One growth step: the whole pass is recomputed against the
    // doubled limit, and emission resumes after the old limit.
    assert!(engine.grow(&signal));
    let mut second: Vec<u64> = Vec::new();
    for _ in 0..1000 {
        if let Some(p) = engine.emit_step() {
            second.push(p);
        }
    }
    assert_eq!(second, primes_in_range_trial(1001, 2000));
    let mut all = first.clone();
    all.extend_from_slice(&second);
    assert_eq!(all, primes_in_range_trial(2, 2000));
    for w in all.windows(2) {
        assert!(w[0] < w[1]);
    }
}

#[test]
fn engines_agree_with_each_other() {
    let signal = CancellationSignal::new();
    let mut sieve = SieveEngine::new();
    let mut atkin = AtkinEngine::new();
    let mut from_sieve: Vec<u64> = Vec::new();
    for _ in 0..(1000 - 2) {
        if let SieveEvent::Prime(p) = sieve.step(&signal) {
            from_sieve.push(p);
        }
    }
    let mut from_atkin: Vec<u64> = Vec::new();
    for _ in 0..998 {
        if let Some(p) = atkin.emit_step() {
            from_atkin.push(p);
        }
    }
    assert_eq!(from_sieve, from_atkin);
}
