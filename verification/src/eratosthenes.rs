//! The growing Eratosthenes sieve engine.
//!
//! A boolean marking buffer over `[0, size)` with a scan cursor.  The
//! engine emits each surviving cursor position as a prime, marks its
//! multiples, and on exhaustion doubles the buffer and re-derives the
//! markings for the enlarged range from the primes already confirmed.
//! The invariant ties the buffer to the mathematical model at every
//! step: an index survives exactly when no integer in `[2, cursor)`
//! properly divides it, and the emission history is exactly the primes
//! below the cursor, in increasing order.

use vstd::prelude::*;
use crate::arith::{
    is_prime, lemma_divides_transitive, lemma_multiples_spacing, lemma_prime_factor_exists,
    prime_seq,
};
use crate::cancel::CancellationSignal;

verus! {

/// Index `i` is unmarked while the scan cursor stands at `c`: no
/// integer in `[2, c)` properly divides `i`.
spec fn survives(i: int, c: int) -> bool {
    i >= 2 && forall|d: int| 2 <= d < c && d < i ==> #[trigger] (i % d) != 0
}

/// Index `i` has no proper prime divisor below `p`.
spec fn no_prime_factor_below(i: int, p: int) -> bool {
    forall|q: int| 2 <= q < p && q < i && is_prime(q) ==> #[trigger] (i % q) != 0
}

/// For `2 <= i <= c` every proper divisor of `i` lies below `c`, so
/// surviving at cursor `c` is exactly primality.
proof fn lemma_survives_full(i: int, c: int)
    requires
        2 <= i <= c,
    ensures
        survives(i, c) <==> is_prime(i),
{
    if survives(i, c) {
        assert forall|d: int| 2 <= d < i implies #[trigger] (i % d) != 0 by {
            assert(2 <= d < c && d < i);
        }
    }
}

/// Proper divisors and proper prime divisors reject the same indices:
/// any proper divisor below `c` contains a prime divisor below `c`.
proof fn lemma_survives_iff_no_prime_factor(i: int, c: int)
    requires
        i >= 2,
        c >= 2,
    ensures
        survives(i, c) <==> no_prime_factor_below(i, c),
{
    if no_prime_factor_below(i, c) {
        assert forall|d: int| 2 <= d < c && d < i implies #[trigger] (i % d) != 0 by {
            if i % d == 0 {
                lemma_prime_factor_exists(d);
                let q = choose|q: int| is_prime(q) && q <= d && #[trigger] (d % q) == 0;
                lemma_divides_transitive(q, d, i);
                assert(2 <= q < c && q < i && is_prime(q) && i % q == 0);
            }
        }
    }
}

/// One unit of engine work: a prime found and its multiples marked, a
/// composite cursor skipped, or cancellation observed.
pub enum SieveEvent {
    /// The cursor survived: it is prime, and was emitted.
    Prime(u64),
    /// The cursor was marked composite and was skipped.
    Advanced,
    /// The cancellation signal was observed; the engine stopped.
    Cancelled,
}

/// The growing sieve: marking buffer, scan cursor, and the (ghost)
/// history of emitted primes.
pub struct SieveEngine {
    sieve: Vec<bool>,
    cursor: usize,
    emitted: Ghost<Seq<u64>>,
    live: Ghost<bool>,
}

impl SieveEngine {
    /// The scan cursor: every index below it has been decided.
    pub closed spec fn cursor(self) -> int {
        self.cursor as int
    }

    /// The current extent of the marking buffer.
    pub closed spec fn size(self) -> int {
        self.sieve@.len() as int
    }

    /// The primes emitted so far, in emission order.
    pub closed spec fn emitted(self) -> Seq<u64> {
        self.emitted@
    }

    /// Whether the engine is still running (no cancellation observed).
    pub closed spec fn live(self) -> bool {
        self.live@
    }

    /// Well-formedness: while live, the cursor is within the buffer,
    /// every index is marked exactly by the proper divisors below the
    /// cursor, and the emission history is exactly the primes below
    /// the cursor.
    pub closed spec fn wf(self) -> bool {
        self.live@ ==> {
            &&& 2 <= self.cursor <= self.sieve@.len()
            &&& self.sieve@.len() <= usize::MAX as int / 2
            &&& forall|i: int|
                0 <= i < self.sieve@.len() ==> #[trigger] self.sieve@[i] == survives(
                    i,
                    self.cursor as int,
                )
            &&& self.emitted@ == prime_seq(self.cursor as int)
        }
    }

    /// A fresh engine: extent 1000, all indices unmarked except 0 and
    /// 1, cursor at 2, nothing emitted.
    pub fn new() -> (s: Self)
        ensures
            s.wf(),
            s.live(),
            s.cursor() == 2,
            s.size() == 1000,
            s.emitted() == Seq::<u64>::empty(),
    {
        let mut sieve: Vec<bool> = Vec::new();
        let mut i: usize = 0;
        while i < 1000
            invariant
                i == sieve@.len(),
                i <= 1000,
                forall|k: int| 0 <= k < i ==> #[trigger] sieve@[k] == true,
            decreases 1000 - i,
        {
            sieve.push(true);
            i = i + 1;
        }
        sieve[0] = false;
        sieve[1] = false;
        let s = SieveEngine { sieve, cursor: 2, emitted: Ghost(Seq::empty()), live: Ghost(true) };
        proof {
            assert forall|k: int| 0 <= k < s.sieve@.len() implies #[trigger] s.sieve@[k]
                == survives(k, 2) by {
                if k >= 2 {
                    assert(forall|d: int| 2 <= d < 2 ==> #[trigger] (k % d) != 0);
                }
            }
        }
        s
    }

    /// Whether the cursor has reached the end of the buffer, so that
    /// only a growth step can produce further primes.
    pub fn needs_growth(&self) -> (r: bool)
        ensures
            r == (self.cursor() == self.size()),
    {
        self.cursor == self.sieve.len()
    }

    /// Whether the buffer may still double without overflowing.
    pub fn can_grow(&self) -> (r: bool)
        ensures
            r == (self.size() <= usize::MAX as int / 4),
    {
        self.sieve.len() <= usize::MAX / 4
    }

    /// Process the current cursor position: if it survived, emit it as
    /// a prime and mark its multiples (polling the cancellation signal
    /// once per multiple); otherwise skip it.  At the instant a value
    /// is emitted, every smaller value has already been emitted or
    /// proven composite.
    pub fn step(&mut self, cancel: &CancellationSignal) -> (r: SieveEvent)
        requires
            old(self).wf(),
            old(self).live(),
            old(self).cursor() < old(self).size(),
        ensures
            final(self).wf(),
            final(self).size() == old(self).size(),
            match r {
                SieveEvent::Prime(p) => {
                    &&& final(self).live()
                    &&& final(self).cursor() == old(self).cursor() + 1
                    &&& is_prime(old(self).cursor())
                    &&& p == old(self).cursor() as u64
                    &&& final(self).emitted() == old(self).emitted().push(p)
                },
                SieveEvent::Advanced => {
                    &&& final(self).live()
                    &&& final(self).cursor() == old(self).cursor() + 1
                    &&& !is_prime(old(self).cursor())
                    &&& final(self).emitted() == old(self).emitted()
                },
                SieveEvent::Cancelled => !final(self).live(),
            },
            // A composite cursor involves no marking and no poll, so it
            // is always skipped; only a prime's marking pass can
            // observe cancellation.
            !is_prime(old(self).cursor()) ==> r is Advanced,
    {
        let c = self.cursor;
        let found = self.sieve[c];
        proof {
            lemma_survives_full(c as int, c as int);
        }
        if found {
            let size = self.sieve.len();
            let ghost s0 = self.sieve@;
            let mut m = 2 * c;
            proof {
                vstd::arithmetic::div_mod::lemma_mod_multiples_basic(2, c as int);
                vstd::arithmetic::div_mod::lemma_mod_self_0(c as int);
                assert((2 * (c as int)) % (c as int) == 0) by {
                    assert(2 * (c as int) == (2int) * (c as int));
                }
                assert forall|i: int|
                    0 <= i < size implies #[trigger] self.sieve@[i] == (s0[i] && !(i % (c as int)
                    == 0 && c < i && i < 2 * (c as int))) by {
                    if i % (c as int) == 0 && c < i && i < 2 * (c as int) {
                        lemma_multiples_spacing(i, c as int, c as int);
                        assert(false);
                    }
                }
            }
            while m < size
                invariant
                    2 <= c < size,
                    is_prime(c as int),
                    c as int == old(self).cursor(),
                    size == self.sieve@.len(),
                    size == old(self).sieve@.len(),
                    size <= usize::MAX / 2,
                    self.cursor == c,
                    (m as int) % (c as int) == 0,
                    m >= 2 * c,
                    s0.len() == size,
                    self.live == old(self).live,
                    self.emitted == old(self).emitted,
                    self.live@,
                    forall|i: int|
                        0 <= i < size ==> #[trigger] self.sieve@[i] == (s0[i] && !(i % (c as int)
                            == 0 && c < i && i < m)),
                decreases size + c - m,
            {
                if cancel.is_set() {
                    self.live = Ghost(false);
                    return SieveEvent::Cancelled;
                }
                let ghost before = self.sieve@;
                self.sieve[m] = false;
                proof {
                    assert forall|i: int|
                        0 <= i < size implies #[trigger] self.sieve@[i] == (s0[i] && !(i % (
                        c as int) == 0 && c < i && i < m + c)) by {
                        if i == m {
                            assert((m as int) % (c as int) == 0 && c < m && m < m + c);
                        } else {
                            assert(self.sieve@[i] == before[i]);
                            if i % (c as int) == 0 && c < i && i < m + c && !(i < m) {
                                lemma_multiples_spacing(i, m as int, c as int);
                                assert(false);
                            }
                        }
                    }
                    vstd::arithmetic::div_mod::lemma_mod_add_multiples_vanish(
                        m as int,
                        c as int,
                    );
                }
                m = m + c;
            }
            self.cursor = c + 1;
            self.emitted = Ghost(self.emitted@.push(c as u64));
            proof {
                assert(s0[c as int] == survives(c as int, c as int));
                assert(is_prime(c as int));
                assert forall|i: int|
                    0 <= i < self.sieve@.len() implies #[trigger] self.sieve@[i] == survives(
                    i,
                    c as int + 1,
                ) by {
                    assert(self.sieve@[i] == (s0[i] && !(i % (c as int) == 0 && c < i)));
                    assert(s0[i] == survives(i, c as int));
                    if s0[i] && !(i % (c as int) == 0 && c < i) {
                        assert forall|d: int| 2 <= d < c as int + 1 && d < i implies #[trigger] (i
                            % d) != 0 by {
                            if d < c as int {
                                assert(survives(i, c as int));
                            } else {
                                assert(d == c as int);
                            }
                        }
                        assert(survives(i, c as int + 1));
                    } else {
                        if survives(i, c as int + 1) {
                            assert forall|d: int| 2 <= d < c as int && d < i implies #[trigger] (i
                                % d) != 0 by {
                                assert(2 <= d < c as int + 1 && d < i);
                            }
                            assert(survives(i, c as int));
                            if i % (c as int) == 0 && c < i {
                                assert(2 <= (c as int) && (c as int) < c as int + 1 && (c as int) < i);
                                assert(i % (c as int) != 0);
                            }
                            assert(false);
                        }
                    }
                }
                assert(self.emitted@ == prime_seq(c as int + 1));
            }
            SieveEvent::Prime(c as u64)
        } else {
            self.cursor = c + 1;
            proof {
                assert(!survives(c as int, c as int));
                assert(!is_prime(c as int));
                assert forall|i: int|
                    0 <= i < self.sieve@.len() implies #[trigger] self.sieve@[i] == survives(
                    i,
                    c as int + 1,
                ) by {
                    assert(self.sieve@[i] == survives(i, c as int));
                    if survives(i, c as int) {
                        if i % (c as int) == 0 && (c as int) < i {
                            // c itself is composite: some proper divisor of c
                            // already marked i.
                            let d = choose|d: int|
                                2 <= d < c as int && d < c as int && #[trigger] (
                                (c as int) % d) == 0;
                            lemma_divides_transitive(d, c as int, i);
                            assert(i % d == 0 && 2 <= d < c as int && d < i);
                            assert(false);
                        }
                        assert forall|d: int| 2 <= d < c as int + 1 && d < i implies #[trigger] (i
                            % d) != 0 by {
                            if d < c as int {
                                assert(survives(i, c as int));
                            } else {
                                assert(d == c as int);
                            }
                        }
                        assert(survives(i, c as int + 1));
                    } else {
                        if survives(i, c as int + 1) {
                            assert forall|d: int| 2 <= d < c as int && d < i implies #[trigger] (i
                                % d) != 0 by {
                                assert(2 <= d < c as int + 1 && d < i);
                            }
                            assert(false);
                        }
                    }
                }
                assert(prime_seq(c as int + 1) == prime_seq(c as int));
            }
            SieveEvent::Advanced
        }
    }

    /// Double the extent and re-derive the markings of the whole
    /// enlarged range from the primes confirmed in the pre-growth
    /// range, polling the cancellation signal once per marked
    /// multiple.  On completion the cursor and the emission history
    /// are unchanged: growth never re-emits and never skips.
    pub fn grow(&mut self, cancel: &CancellationSignal) -> (r: bool)
        requires
            old(self).wf(),
            old(self).live(),
            old(self).cursor() == old(self).size(),
            old(self).size() <= usize::MAX as int / 4,
        ensures
            r ==> {
                &&& final(self).wf()
                &&& final(self).live()
                &&& final(self).cursor() == old(self).cursor()
                &&& final(self).size() == 2 * old(self).size()
                &&& final(self).emitted() == old(self).emitted()
            },
            !r ==> !final(self).live(),
    {
        let c = self.cursor;
        let old_size = self.sieve.len();
        let new_size = old_size * 2;
        let ghost s_pre = self.sieve@;
        while self.sieve.len() < new_size
            invariant
                old_size <= self.sieve@.len() <= new_size,
                s_pre.len() == old_size,
                forall|i: int| 0 <= i < old_size ==> #[trigger] self.sieve@[i] == s_pre[i],
                forall|i: int|
                    old_size <= i < self.sieve@.len() ==> #[trigger] self.sieve@[i] == true,
                self.cursor == c,
                self.live == old(self).live,
                self.emitted == old(self).emitted,
            decreases new_size - self.sieve@.len(),
        {
            self.sieve.push(true);
        }
        let mut p: usize = 2;
        while p < c
            invariant
                2 <= p <= c,
                c == old_size,
                2 <= c,
                old_size <= usize::MAX / 4,
                new_size == 2 * old_size,
                self.sieve@.len() == new_size,
                self.cursor == c,
                self.live == old(self).live,
                self.emitted == old(self).emitted,
                self.live@,
                forall|i: int| 0 <= i < old_size ==> #[trigger] self.sieve@[i] == survives(i, c as int),
                forall|i: int|
                    old_size <= i < new_size ==> #[trigger] self.sieve@[i] == no_prime_factor_below(
                        i,
                        p as int,
                    ),
            decreases c - p,
        {
            let is_p = self.sieve[p];
            proof {
                lemma_survives_full(p as int, c as int);
            }
            if is_p {
                let ghost s1 = self.sieve@;
                let mut m = 2 * p;
                proof {
                    vstd::arithmetic::div_mod::lemma_mod_multiples_basic(2, p as int);
                    vstd::arithmetic::div_mod::lemma_mod_self_0(p as int);
                    assert((2 * (p as int)) % (p as int) == 0) by {
                        assert(2 * (p as int) == (2int) * (p as int));
                    }
                    assert forall|i: int|
                        0 <= i < new_size implies #[trigger] self.sieve@[i] == (s1[i] && !(i % (
                        p as int) == 0 && p < i && i < 2 * (p as int))) by {
                        if i % (p as int) == 0 && p < i && i < 2 * (p as int) {
                            lemma_multiples_spacing(i, p as int, p as int);
                            assert(false);
                        }
                    }
                }
                while m < new_size
                    invariant
                        2 <= p < c,
                        c == old_size,
                        old_size <= usize::MAX / 4,
                        new_size == 2 * old_size,
                        self.sieve@.len() == new_size,
                        s1.len() == new_size,
                        self.cursor == c,
                        self.live == old(self).live,
                        self.emitted == old(self).emitted,
                        self.live@,
                        (m as int) % (p as int) == 0,
                        m >= 2 * p,
                        forall|i: int|
                            0 <= i < new_size ==> #[trigger] self.sieve@[i] == (s1[i] && !(i % (
                            p as int) == 0 && p < i && i < m)),
                    decreases new_size + p - m,
                {
                    if cancel.is_set() {
                        self.live = Ghost(false);
                        return false;
                    }
                    let ghost before = self.sieve@;
                    self.sieve[m] = false;
                    proof {
                        assert forall|i: int|
                            0 <= i < new_size implies #[trigger] self.sieve@[i] == (s1[i] && !(i
                            % (p as int) == 0 && p < i && i < m + p)) by {
                            if i == m {
                                assert((m as int) % (p as int) == 0 && p < m && m < m + p);
                            } else {
                                assert(self.sieve@[i] == before[i]);
                                if i % (p as int) == 0 && p < i && i < m + p && !(i < m) {
                                    lemma_multiples_spacing(i, m as int, p as int);
                                    assert(false);
                                }
                            }
                        }
                        vstd::arithmetic::div_mod::lemma_mod_add_multiples_vanish(
                            m as int,
                            p as int,
                        );
                    }
                    m = m + p;
                }
                proof {
                    assert(is_prime(p as int));
                    assert forall|i: int|
                        0 <= i < old_size implies #[trigger] self.sieve@[i] == survives(
                        i,
                        c as int,
                    ) by {
                        assert(self.sieve@[i] == (s1[i] && !(i % (p as int) == 0 && p < i)));
                        assert(s1[i] == survives(i, c as int));
                        if survives(i, c as int) && i % (p as int) == 0 && (p as int) < i {
                            assert(2 <= (p as int) && (p as int) < c as int && (p as int) < i);
                            assert(i % (p as int) != 0);
                            assert(false);
                        }
                    }
                    assert forall|i: int|
                        old_size <= i < new_size implies #[trigger] self.sieve@[i]
                        == no_prime_factor_below(i, p as int + 1) by {
                        assert(self.sieve@[i] == (s1[i] && !(i % (p as int) == 0 && p < i)));
                        assert(s1[i] == no_prime_factor_below(i, p as int));
                        if s1[i] && !(i % (p as int) == 0 && p < i) {
                            assert forall|q: int|
                                2 <= q < p as int + 1 && q < i && is_prime(q) implies #[trigger] (
                            i % q) != 0 by {
                                if q < p as int {
                                    assert(no_prime_factor_below(i, p as int));
                                } else {
                                    assert(q == p as int);
                                }
                            }
                        } else {
                            if no_prime_factor_below(i, p as int + 1) {
                                assert forall|q: int|
                                    2 <= q < p as int && q < i && is_prime(q) implies #[trigger] (
                                i % q) != 0 by {
                                    assert(2 <= q < p as int + 1 && q < i && is_prime(q));
                                }
                                assert(no_prime_factor_below(i, p as int));
                                if i % (p as int) == 0 && (p as int) < i {
                                    assert(2 <= (p as int) && (p as int) < p as int + 1 && (p as int) < i
                                        && is_prime(p as int));
                                    assert(i % (p as int) != 0);
                                }
                                assert(false);
                            }
                        }
                    }
                }
            } else {
                proof {
                    assert(!is_prime(p as int));
                    assert forall|i: int|
                        old_size <= i < new_size implies #[trigger] self.sieve@[i]
                        == no_prime_factor_below(i, p as int + 1) by {
                        assert(self.sieve@[i] == no_prime_factor_below(i, p as int));
                        if no_prime_factor_below(i, p as int) {
                            assert forall|q: int|
                                2 <= q < p as int + 1 && q < i && is_prime(q) implies #[trigger] (
                            i % q) != 0 by {
                                if q < p as int {
                                    assert(no_prime_factor_below(i, p as int));
                                }
                            }
                        } else {
                            if no_prime_factor_below(i, p as int + 1) {
                                assert forall|q: int|
                                    2 <= q < p as int && q < i && is_prime(q) implies #[trigger] (
                                i % q) != 0 by {
                                    assert(2 <= q < p as int + 1 && q < i && is_prime(q));
                                }
                                assert(false);
                            }
                        }
                    }
                }
            }
            p = p + 1;
        }
        proof {
            assert forall|i: int|
                0 <= i < self.sieve@.len() implies #[trigger] self.sieve@[i] == survives(
                i,
                c as int,
            ) by {
                if i >= old_size {
                    assert(self.sieve@[i] == no_prime_factor_below(i, c as int));
                    lemma_survives_iff_no_prime_factor(i, c as int);
                }
            }
        }
        true
    }

    /// The law the engine maintains: while live and well-formed, the
    /// emission history is exactly the primes below the cursor, in
    /// strictly increasing order, with no duplicates, no omissions,
    /// and no dependence on how many growth steps produced the
    /// current extent.
    pub proof fn lemma_emitted_is_reference_stream(&self)
        requires
            self.wf(),
            self.live(),
        ensures
            self.emitted() == prime_seq(self.cursor()),
    {
    }
}

} // verus!
