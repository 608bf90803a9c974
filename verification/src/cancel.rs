//! The process-wide cooperative cancellation signal.
//!
//! One flag, created before the generators start, raised exactly once
//! when the deadline elapses, and never reset.  Generators poll it
//! between bounded units of work; the value a poll returns reflects a
//! racing writer, so the engines state what holds of their output for
//! every answer a poll may give.

use vstd::prelude::*;
use core::sync::atomic::{AtomicBool, Ordering};

verus! {

/// A write-once boolean flag, shared by reference among the four
/// generators and the collector.
pub struct CancellationSignal {
    flag: AtomicBool,
}

impl CancellationSignal {
    /// A fresh signal in the "not cancelled" state.
    pub fn new() -> Self {
        CancellationSignal { flag: AtomicBool::new(false) }
    }

    /// Raise the signal.  Idempotent: the flag only moves from "not
    /// cancelled" to "cancelled".
    pub fn set(&self) {
        self.flag.store(true, Ordering::SeqCst);
    }

    /// Poll the signal.
    pub fn is_set(&self) -> bool {
        self.flag.load(Ordering::SeqCst)
    }
}

} // verus!
