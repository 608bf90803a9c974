//! Cooperative cancellation: once the signal is set, all four
//! generators exit within a short grace window.

use crossbeam::channel::{after, unbounded, Sender};
use prime_search::atkin::AtkinEngine;
use prime_search::cancel::CancellationSignal;
use prime_search::eratosthenes::{SieveEngine, SieveEvent};
use prime_search::miller::MillerRabinStream;
use prime_search::trial::TrialDivisionStream;
use std::time::{Duration, Instant};

fn run_trial_division(sender: Sender<u64>, signal: &CancellationSignal) {
    let mut stream = TrialDivisionStream::new();
    while !signal.is_set() {
        if !stream.can_advance() {
            break;
        }
        if let Some(p) = stream.advance() {
            if sender.send(p).is_err() {
                break;
            }
        }
    }
}

fn run_miller_rabin(sender: Sender<u64>, signal: &CancellationSignal) {
    let mut stream = MillerRabinStream::new();
    while !signal.is_set() {
        if !stream.can_advance() {
            break;
        }
        if let Some(p) = stream.advance() {
            if sender.send(p).is_err() {
                break;
            }
        }
    }
}

fn run_sieve(sender: Sender<u64>, signal: &CancellationSignal) {
    let mut engine = SieveEngine::new();
    loop {
        if signal.is_set() {
            break;
        }
        if engine.needs_growth() {
            if !engine.can_grow() {
                break;
            }
            if !engine.grow(signal) {
                break;
            }
        } else {
            match engine.step(signal) {
                SieveEvent::Prime(p) => {
                    if sender.send(p).is_err() {
                        break;
                    }
                }
                SieveEvent::Advanced => {}
                SieveEvent::Cancelled => break,
            }
        }
    }
}

fn run_atkin(sender: Sender<u64>, signal: &CancellationSignal) {
    let mut engine = AtkinEngine::new();
    loop {
        if signal.is_set() {
            break;
        }
        if engine.needs_growth() {
            if !engine.can_grow() {
                break;
            }
            if !engine.grow(signal) {
                break;
            }
        } else if let Some(p) = engine.emit_step() {
            if sender.send(p).is_err() {
                break;
            }
        }
    }
}

#[test]
fn all_generators_join_within_grace_window() {
    let signal = CancellationSignal::new();
    let (td_s, td_r) = unbounded();
    let (soe_s, soe_r) = unbounded();
    let (soa_s, soa_r) = unbounded();
    let (mr_s, mr_r) = unbounded();
    let set_at = crossbeam::thread::scope(|scope| {
        let sig = &signal;
        scope.spawn(move |_| run_trial_division(td_s, sig));
        scope.spawn(move |_| run_sieve(soe_s, sig));
        scope.spawn(move |_| run_atkin(soa_s, sig));
        scope.spawn(move |_| run_miller_rabin(mr_s, sig));
        // Let the generators run for about one second, then raise
        // the signal and record the moment.
        let _ = after(Duration::from_secs(1)).recv();
        sig.set();
        Instant::now()
    })
    .unwrap();
    // The scope has joined all four units of execution by now.
    let stop_latency = set_at.elapsed();
    assert!(
        stop_latency < Duration::from_secs(2),
        "generators took {:?} to stop",
        stop_latency
    );
    // Every strategy made progress, and each stream arrived in
    // strictly increasing order with no duplicates.
    for (name, r) in [
        ("trial division", td_r),
        ("sieve", soe_r),
        ("atkin", soa_r),
        ("miller-rabin", mr_r),
    ] {
        let values: Vec<u64> = r.try_iter().collect();
        assert!(!values.is_empty(), "{} produced nothing", name);
        assert_eq!(values[0], 2, "{} does not start at 2", name);
        for w in values.windows(2) {
            assert!(w[0] < w[1], "{} emitted out of order", name);
        }
    }
}
