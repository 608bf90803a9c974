//! End-to-end: a two-second run with four generators, a deadline-bound
//! collector, per-strategy record sinks and final status lines.

use crossbeam::channel::{after, unbounded, Receiver, Sender};
use prime_search::atkin::AtkinEngine;
use prime_search::cancel::CancellationSignal;
use prime_search::collector::{deadline_reached, final_status, Algorithm, RunSummary};
use prime_search::eratosthenes::{SieveEngine, SieveEvent};
use prime_search::miller::MillerRabinStream;
use prime_search::trial::TrialDivisionStream;
use std::time::{Duration, Instant};

fn run_trial_division(sender: Sender<u64>, signal: &CancellationSignal) {
    let mut stream = TrialDivisionStream::new();
    while !signal.is_set() {
        if !stream.can_advance() {
            break;
        }
        if let Some(p) = stream.advance() {
            if sender.send(p).is_err() {
                break;
            }
        }
    }
}

fn run_miller_rabin(sender: Sender<u64>, signal: &CancellationSignal) {
    let mut stream = MillerRabinStream::new();
    while !signal.is_set() {
        if !stream.can_advance() {
            break;
        }
        if let Some(p) = stream.advance() {
            if sender.send(p).is_err() {
                break;
            }
        }
    }
}

fn run_sieve(sender: Sender<u64>, signal: &CancellationSignal) {
    let mut engine = SieveEngine::new();
    loop {
        if signal.is_set() {
            break;
        }
        if engine.needs_growth() {
            if !engine.can_grow() || !engine.grow(signal) {
                break;
            }
        } else {
            match engine.step(signal) {
                SieveEvent::Prime(p) => {
                    if sender.send(p).is_err() {
                        break;
                    }
                }
                SieveEvent::Advanced => {}
                SieveEvent::Cancelled => break,
            }
        }
    }
}

fn run_atkin(sender: Sender<u64>, signal: &CancellationSignal) {
    let mut engine = AtkinEngine::new();
    loop {
        if signal.is_set() {
            break;
        }
        if engine.needs_growth() {
            if !engine.can_grow() || !engine.grow(signal) {
                break;
            }
        } else if let Some(p) = engine.emit_step() {
            if sender.send(p).is_err() {
                break;
            }
        }
    }
}

#[test]
fn two_second_run_produces_well_formed_sinks_and_statuses() {
    let signal = CancellationSignal::new();
    let algorithms = [
        Algorithm::TrialDivision,
        Algorithm::SieveOfEratosthenes,
        Algorithm::SieveOfAtkin,
        Algorithm::MillerRabin,
    ];
    let (td_s, td_r) = unbounded();
    let (soe_s, soe_r) = unbounded();
    let (soa_s, soa_r) = unbounded();
    let (mr_s, mr_r) = unbounded();
    let receivers: [Receiver<u64>; 4] = [td_r, soe_r, soa_r, mr_r];
    // Four fresh in-memory sinks, each with the two-column header.
    let mut writers: Vec<csv::Writer<Vec<u8>>> = Vec::new();
    for _ in 0..4 {
        let mut w = csv::Writer::from_writer(Vec::new());
        w.write_record(["prime", "timestamp"]).unwrap();
        writers.push(w);
    }
    let mut summaries = [
        RunSummary::new(),
        RunSummary::new(),
        RunSummary::new(),
        RunSummary::new(),
    ];
    let duration_ms = 2000u64;
    let final_elapsed_ms = crossbeam::thread::scope(|scope| {
        let sig = &signal;
        scope.spawn(move |_| run_trial_division(td_s, sig));
        scope.spawn(move |_| run_sieve(soe_s, sig));
        scope.spawn(move |_| run_atkin(soa_s, sig));
        scope.spawn(move |_| run_miller_rabin(mr_s, sig));
        let start = Instant::now();
        let final_elapsed_ms;
        loop {
            let elapsed_ms = start.elapsed().as_millis() as u64;
            if deadline_reached(elapsed_ms, duration_ms) {
                final_elapsed_ms = elapsed_ms;
                break;
            }
            for k in 0..4 {
                // Drain a bounded batch per iteration so the deadline
                // check stays responsive.
                for _ in 0..256 {
                    match receivers[k].try_recv() {
                        Ok(prime) => {
                            let now_ms = start.elapsed().as_millis() as u64;
                            let (stamp, _status) = summaries[k].collect_value(
                                algorithms[k].as_str(),
                                prime,
                                now_ms,
                            );
                            writers[k]
                                .write_record([prime.to_string(), stamp])
                                .unwrap();
                        }
                        Err(_) => break,
                    }
                }
            }
            let _ = after(Duration::from_millis(10)).recv();
        }
        sig.set();
        final_elapsed_ms
    })
    .unwrap();
    // Finalize: capture the elapsed time at the moment the deadline
    // fired, not the later time after joining.
    let mut statuses: Vec<String> = Vec::new();
    for k in 0..4 {
        summaries[k].finalize(final_elapsed_ms);
        statuses.push(final_status(
            algorithms[k].as_str(),
            summaries[k].largest,
            summaries[k].elapsed_ms,
        ));
    }
    for k in 0..4 {
        let bytes = writers.remove(0).into_inner().unwrap();
        let mut reader = csv::Reader::from_reader(&bytes[..]);
        assert_eq!(
            reader.headers().unwrap(),
            &csv::StringRecord::from(vec!["prime", "timestamp"]),
            "sink {} header malformed",
            k
        );
        let mut largest_in_sink = 0u64;
        let mut records = 0usize;
        for record in reader.records() {
            let record = record.unwrap();
            let prime: u64 = record[0].parse().unwrap();
            let stamp: f64 = record[1].parse().unwrap();
            assert!(prime > 0, "sink {} holds a non-positive value", k);
            assert!(
                stamp <= 2.5,
                "sink {} holds a record after the shutdown slack: {}",
                k,
                stamp
            );
            if prime > largest_in_sink {
                largest_in_sink = prime;
            }
            records += 1;
        }
        assert!(records >= 1, "sink {} is empty", k);
        // The final status line reports exactly the largest value
        // present in this strategy's sink.
        assert!(
            statuses[k].contains(&format!("Largest Prime: {} |", largest_in_sink)),
            "status {:?} does not match sink maximum {}",
            statuses[k],
            largest_in_sink
        );
    }
}
