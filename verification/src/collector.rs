//! The fan-in collector's decision logic.
//!
//! The collector consumes the four strategy streams under a global
//! deadline.  Everything it decides - whether the deadline has been
//! reached, what record a received prime becomes, when the running
//! maximum moves and what progress text that produces - is here, as
//! pure functions over plain values.  The loop that races the four
//! channel receives against the tick lives in the surrounding binary
//! and calls these per event.

use vstd::prelude::*;
use vstd::string::StringExecFns;
use crate::text::{dec_digits, timestamp_seq, timestamp_text, u64_to_string};

verus! {

/// The four generation strategies.
#[derive(Debug, Clone, Copy)]
pub enum Algorithm {
    TrialDivision,
    SieveOfEratosthenes,
    SieveOfAtkin,
    MillerRabin,
}

impl Algorithm {
    /// The strategy's display label.
    pub fn as_str(&self) -> (r: &'static str)
        ensures
            self is TrialDivision ==> r@ == "Trial Division"@,
            self is SieveOfEratosthenes ==> r@ == "Sieve of Eratosthenes"@,
            self is SieveOfAtkin ==> r@ == "Sieve of Atkin"@,
            self is MillerRabin ==> r@ == "Miller-Rabin"@,
    {
        match self {
            Algorithm::TrialDivision => "Trial Division",
            Algorithm::SieveOfEratosthenes => "Sieve of Eratosthenes",
            Algorithm::SieveOfAtkin => "Sieve of Atkin",
            Algorithm::MillerRabin => "Miller-Rabin",
        }
    }

    /// The file name of the strategy's persistence sink.
    pub fn csv_filename(&self) -> (r: &'static str)
        ensures
            self is TrialDivision ==> r@ == "trial_division.csv"@,
            self is SieveOfEratosthenes ==> r@ == "sieve_of_eratosthenes.csv"@,
            self is SieveOfAtkin ==> r@ == "sieve_of_atkin.csv"@,
            self is MillerRabin ==> r@ == "miller_rabin.csv"@,
    {
        match self {
            Algorithm::TrialDivision => "trial_division.csv",
            Algorithm::SieveOfEratosthenes => "sieve_of_eratosthenes.csv",
            Algorithm::SieveOfAtkin => "sieve_of_atkin.csv",
            Algorithm::MillerRabin => "miller_rabin.csv",
        }
    }
}

/// Per-strategy summary owned by the collector: the largest prime
/// observed so far, and the elapsed time captured at termination.
pub struct RunSummary {
    pub largest: u64,
    pub elapsed_ms: u64,
}

/// The progress text for a strategy: its label and its largest prime
/// so far.
pub open spec fn status_seq(label: Seq<char>, largest: nat) -> Seq<char> {
    label + " | Largest Prime: "@ + dec_digits(largest)
}

/// The final status text: the progress text plus the total elapsed
/// time captured when the deadline fired.
pub open spec fn final_status_seq(label: Seq<char>, largest: nat, elapsed_ms: nat) -> Seq<char> {
    status_seq(label, largest) + " | Elapsed: "@ + timestamp_seq(elapsed_ms) + "s"@
}

/// Render the progress text for a strategy.
pub fn status_text(label: &str, largest: u64) -> (r: String)
    ensures
        r@ == status_seq(label@, largest as nat),
{
    let mut s = String::from_str(label);
    s.append(" | Largest Prime: ");
    let d = u64_to_string(largest);
    s.append(d.as_str());
    s
}

/// Render the final status line for a strategy.
pub fn final_status(label: &str, largest: u64, elapsed_ms: u64) -> (r: String)
    requires
        elapsed_ms <= u64::MAX - 5,
    ensures
        r@ == final_status_seq(label@, largest as nat, elapsed_ms as nat),
{
    let mut s = status_text(label, largest);
    s.append(" | Elapsed: ");
    let t = timestamp_text(elapsed_ms);
    s.append(t.as_str());
    s.append("s");
    s
}

/// The deadline check the collector makes at the top of every loop
/// iteration: the run stops once the elapsed time reaches the
/// configured duration.
pub fn deadline_reached(elapsed_ms: u64, duration_ms: u64) -> (r: bool)
    ensures
        r == (elapsed_ms >= duration_ms),
{
    elapsed_ms >= duration_ms
}

impl RunSummary {
    /// A fresh summary: nothing observed yet.
    pub fn new() -> (s: Self)
        ensures
            s.largest == 0,
            s.elapsed_ms == 0,
    {
        RunSummary { largest: 0, elapsed_ms: 0 }
    }

    /// Record one received prime: the record to persist (the prime's
    /// timestamp column) and, when the prime exceeds the running
    /// maximum, the updated progress text.  The running maximum never
    /// regresses.
    pub fn collect_value(&mut self, label: &str, prime: u64, elapsed_ms: u64) -> (r: (
        String,
        Option<String>,
    ))
        requires
            elapsed_ms <= u64::MAX - 5,
        ensures
            final(self).largest == if prime > old(self).largest {
                prime
            } else {
                old(self).largest
            },
            final(self).largest >= old(self).largest,
            final(self).elapsed_ms == old(self).elapsed_ms,
            r.0@ == timestamp_seq(elapsed_ms as nat),
            prime > old(self).largest ==> (r.1 matches Some(s) && s@ == status_seq(
                label@,
                prime as nat,
            )),
            prime <= old(self).largest ==> r.1 is None,
    {
        let stamp = timestamp_text(elapsed_ms);
        if prime > self.largest {
            self.largest = prime;
            let status = status_text(label, prime);
            (stamp, Some(status))
        } else {
            (stamp, None)
        }
    }

    /// Capture the elapsed time at the moment the deadline fired.
    pub fn finalize(&mut self, elapsed_ms: u64)
        ensures
            final(self).largest == old(self).largest,
            final(self).elapsed_ms == elapsed_ms,
    {
        self.elapsed_ms = elapsed_ms;
    }
}

/// The running maximum after consuming a stream of received values,
/// starting from `init`: the fold of `collect_value`'s update rule.
pub open spec fn running_max(init: u64, s: Seq<u64>) -> u64
    decreases s.len(),
{
    if s.len() == 0 {
        init
    } else {
        running_max(
            if s[0] > init {
                s[0]
            } else {
                init
            },
            s.drop_first(),
        )
    }
}

/// The running maximum is at least its starting point.
pub proof fn lemma_running_max_lower_bound(init: u64, s: Seq<u64>)
    ensures
        running_max(init, s) >= init,
    decreases s.len(),
{
    if s.len() > 0 {
        lemma_running_max_lower_bound(
            if s[0] > init {
                s[0]
            } else {
                init
            },
            s.drop_first(),
        );
    }
}

/// Law: the collector's running maximum never regresses.  Consuming
/// more of a stream can only raise the summary's largest value.
pub proof fn lemma_running_max_monotone(init: u64, s: Seq<u64>, k: int)
    requires
        0 <= k <= s.len(),
    ensures
        running_max(init, s.take(k)) <= running_max(init, s),
    decreases s.len(),
{
    if k == 0 {
        assert(s.take(0).len() == 0);
        lemma_running_max_lower_bound(init, s);
    } else {
        let init2 = if s[0] > init {
            s[0]
        } else {
            init
        };
        assert(s.take(k)[0] == s[0]);
        assert(s.take(k).drop_first() =~= s.drop_first().take(k - 1));
        lemma_running_max_monotone(init2, s.drop_first(), k - 1);
    }
}

/// Law: within a single stream of strictly increasing values, the
/// collector updates the summary to each new value in the order
/// received, so the final maximum is the last value of the stream.
pub proof fn lemma_running_max_of_increasing(init: u64, s: Seq<u64>)
    requires
        s.len() > 0,
        init < s[0],
        forall|k1: int, k2: int| 0 <= k1 < k2 < s.len() ==> s[k1] < s[k2],
    ensures
        running_max(init, s) == s[s.len() - 1],
    decreases s.len(),
{
    let init2 = s[0];
    if s.len() == 1 {
        lemma_running_max_lower_bound(init2, s.drop_first());
        assert(s.drop_first().len() == 0);
    } else {
        assert(s.drop_first()[0] == s[1]);
        assert(forall|k1: int, k2: int|
            0 <= k1 < k2 < s.drop_first().len() ==> s.drop_first()[k1] < s.drop_first()[k2]);
        lemma_running_max_of_increasing(init2, s.drop_first());
        assert(s.drop_first()[s.drop_first().len() - 1] == s[s.len() - 1]);
    }
}

} // verus!
