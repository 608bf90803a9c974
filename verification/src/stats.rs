//! Per-strategy run statistics and their persisted record line.

use vstd::prelude::*;
use vstd::string::StringExecFns;
use crate::text::{dec_digits, digit_char, digit_str, u64_to_string};

verus! {

/// What one strategy's run produced: its name, how long it ran
/// (milliseconds), the largest prime it found, and how many primes it
/// found in all.
pub struct AlgorithmStats {
    pub algorithm_name: String,
    pub time_taken_ms: u64,
    pub largest_prime: u64,
    pub num_primes_found: usize,
}

/// The persisted record line for one statistics row: name, elapsed
/// seconds with three decimals, largest prime, count, comma-separated.
pub open spec fn stats_row_seq(name: Seq<char>, ms: nat, largest: nat, count: nat) -> Seq<char> {
    name + seq![','] + dec_digits(ms / 1000) + seq![
        '.',
        digit_char(ms % 1000 / 100),
        digit_char(ms % 1000 / 10 % 10),
        digit_char(ms % 1000 % 10),
    ] + seq![','] + dec_digits(largest) + seq![','] + dec_digits(count)
}

impl AlgorithmStats {
    /// Render this row for an append-style statistics sink.
    pub fn csv_row(&self) -> (r: String)
        ensures
            r@ == stats_row_seq(
                self.algorithm_name@,
                self.time_taken_ms as nat,
                self.largest_prime as nat,
                self.num_primes_found as nat,
            ),
    {
        let mut s = self.algorithm_name.clone();
        s.append(",");
        let secs = u64_to_string(self.time_taken_ms / 1000);
        s.append(secs.as_str());
        s.append(".");
        let frac = self.time_taken_ms % 1000;
        s.append(digit_str(frac / 100));
        s.append(digit_str(frac / 10 % 10));
        s.append(digit_str(frac % 10));
        s.append(",");
        let largest = u64_to_string(self.largest_prime);
        s.append(largest.as_str());
        s.append(",");
        let count = u64_to_string(self.num_primes_found as u64);
        s.append(count.as_str());
        proof {
            reveal_strlit(",");
            reveal_strlit(".");
            assert(s@ =~= stats_row_seq(
                self.algorithm_name@,
                self.time_taken_ms as nat,
                self.largest_prime as nat,
                self.num_primes_found as nat,
            ));
        }
        s
    }
}

} // verus!
