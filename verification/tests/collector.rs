//! The collector's decision logic: summaries, deadline, record and
//! status formatting.

use prime_search::collector::{deadline_reached, final_status, status_text, Algorithm, RunSummary};
use prime_search::stats::AlgorithmStats;
use prime_search::text::{timestamp_text, u64_to_string};

#[test]
fn decimal_formatting() {
    assert_eq!(u64_to_string(0), "0");
    assert_eq!(u64_to_string(7), "7");
    assert_eq!(u64_to_string(10), "10");
    assert_eq!(u64_to_string(104729), "104729");
    assert_eq!(u64_to_string(u64::MAX), "18446744073709551615");
}

#[test]
fn timestamp_formatting() {
    assert_eq!(timestamp_text(0), "0.00");
    assert_eq!(timestamp_text(10), "0.01");
    assert_eq!(timestamp_text(1234), "1.23");
    assert_eq!(timestamp_text(1995), "2.00");
    assert_eq!(timestamp_text(12345), "12.35");
    assert_eq!(timestamp_text(2000), "2.00");
}

#[test]
fn algorithm_labels_and_filenames() {
    assert_eq!(Algorithm::TrialDivision.as_str(), "Trial Division");
    assert_eq!(Algorithm::SieveOfEratosthenes.as_str(), "Sieve of Eratosthenes");
    assert_eq!(Algorithm::SieveOfAtkin.as_str(), "Sieve of Atkin");
    assert_eq!(Algorithm::MillerRabin.as_str(), "Miller-Rabin");
    assert_eq!(Algorithm::TrialDivision.csv_filename(), "trial_division.csv");
    assert_eq!(
        Algorithm::SieveOfEratosthenes.csv_filename(),
        "sieve_of_eratosthenes.csv"
    );
    assert_eq!(Algorithm::SieveOfAtkin.csv_filename(), "sieve_of_atkin.csv");
    assert_eq!(Algorithm::MillerRabin.csv_filename(), "miller_rabin.csv");
}

#[test]
fn status_lines() {
    assert_eq!(
        status_text("Trial Division", 97),
        "Trial Division | Largest Prime: 97"
    );
    assert_eq!(
        final_status("Sieve of Atkin", 9973, 2000),
        "Sieve of Atkin | Largest Prime: 9973 | Elapsed: 2.00s"
    );
}

#[test]
fn deadline_check() {
    assert!(!deadline_reached(0, 2000));
    assert!(!deadline_reached(1999, 2000));
    assert!(deadline_reached(2000, 2000));
    assert!(deadline_reached(5000, 2000));
    assert!(deadline_reached(0, 0));
}

#[test]
fn summary_updates_in_order_and_never_regresses() {
    // A single stream of monotonically increasing injected values:
    // the summary moves to each new value in order.
    let mut summary = RunSummary::new();
    assert_eq!(summary.largest, 0);
    let stream = [2u64, 3, 5, 7, 11, 13];
    for (k, &p) in stream.iter().enumerate() {
        let (stamp, status) = summary.collect_value("Trial Division", p, 100 * k as u64);
        assert_eq!(summary.largest, p, "summary did not move to {}", p);
        assert!(!stamp.is_empty());
        let status = status.expect("a new maximum must update the progress text");
        assert_eq!(status, format!("Trial Division | Largest Prime: {}", p));
    }
    // A smaller or equal value never regresses the maximum and
    // produces no update.
    let (_, status) = summary.collect_value("Trial Division", 11, 700);
    assert!(status.is_none());
    assert_eq!(summary.largest, 13);
    let (_, status) = summary.collect_value("Trial Division", 13, 800);
    assert!(status.is_none());
    assert_eq!(summary.largest, 13);
    // Finalizing captures the elapsed time and keeps the maximum.
    summary.finalize(900);
    assert_eq!(summary.largest, 13);
    assert_eq!(summary.elapsed_ms, 900);
}

#[test]
fn stats_row_rendering() {
    let stats = AlgorithmStats {
        algorithm_name: String::from("Trial Division"),
        time_taken_ms: 1234,
        largest_prime: 97,
        num_primes_found: 25,
    };
    assert_eq!(stats.csv_row(), "Trial Division,1.234,97,25");
    let stats = AlgorithmStats {
        algorithm_name: String::from("Sieve of Atkin"),
        time_taken_ms: 60000,
        largest_prime: 104729,
        num_primes_found: 10000,
    };
    assert_eq!(stats.csv_row(), "Sieve of Atkin,60.000,104729,10000");
}
