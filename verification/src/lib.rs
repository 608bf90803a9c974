//! A concurrent prime-discovery library.
//!
//! Four generation strategies - incremental trial division, a growing
//! Eratosthenes sieve, a growing quadratic-form (Atkin) sieve, and a
//! randomized-witness (Miller-Rabin) stream - each produce an unbounded,
//! self-extending sequence of primes.  A collector merges their output
//! under a global deadline, with cooperative cancellation.  This crate
//! holds the verified kernels, engines and collector logic; the thread
//! and channel plumbing around them lives in the surrounding binary.

pub mod arith;
pub mod atkin;
pub mod cancel;
pub mod collector;
pub mod eratosthenes;
pub mod miller;
pub mod modexp;
pub mod stats;
pub mod text;
pub mod trial;
