//! Verified decimal formatting: the record timestamps and status lines
//! that the collector hands to the persistence and progress sinks.

use vstd::prelude::*;
use vstd::string::StringExecFns;

verus! {

/// The character for one decimal digit.
pub open spec fn digit_char(d: nat) -> char {
    if d == 0 {
        '0'
    } else if d == 1 {
        '1'
    } else if d == 2 {
        '2'
    } else if d == 3 {
        '3'
    } else if d == 4 {
        '4'
    } else if d == 5 {
        '5'
    } else if d == 6 {
        '6'
    } else if d == 7 {
        '7'
    } else if d == 8 {
        '8'
    } else {
        '9'
    }
}

/// The decimal digits of `n`, most significant first, no leading
/// zeros (a single zero for 0).
pub open spec fn dec_digits(n: nat) -> Seq<char>
    decreases n,
{
    if n < 10 {
        seq![digit_char(n)]
    } else {
        dec_digits(n / 10).push(digit_char(n % 10))
    }
}

/// One digit as a string slice.
pub(crate) fn digit_str(d: u64) -> (r: &'static str)
    requires
        d < 10,
    ensures
        r@ == seq![digit_char(d as nat)],
{
    let s: &'static str = if d == 0 {
        "0"
    } else if d == 1 {
        "1"
    } else if d == 2 {
        "2"
    } else if d == 3 {
        "3"
    } else if d == 4 {
        "4"
    } else if d == 5 {
        "5"
    } else if d == 6 {
        "6"
    } else if d == 7 {
        "7"
    } else if d == 8 {
        "8"
    } else {
        "9"
    };
    proof {
        reveal_strlit("0");
        reveal_strlit("1");
        reveal_strlit("2");
        reveal_strlit("3");
        reveal_strlit("4");
        reveal_strlit("5");
        reveal_strlit("6");
        reveal_strlit("7");
        reveal_strlit("8");
        reveal_strlit("9");
        assert(s@ =~= seq![digit_char(d as nat)]);
    }
    s
}

/// Format `n` in decimal.
pub fn u64_to_string(n: u64) -> (r: String)
    ensures
        r@ == dec_digits(n as nat),
    decreases n,
{
    if n < 10 {
        String::from_str(digit_str(n))
    } else {
        let mut s = u64_to_string(n / 10);
        s.append(digit_str(n % 10));
        proof {
            assert(dec_digits((n / 10) as nat) + seq![digit_char((n % 10) as nat)] =~= dec_digits(
                (n / 10) as nat,
            ).push(digit_char((n % 10) as nat)));
        }
        s
    }
}

/// Elapsed milliseconds as seconds with two decimals, rounded to the
/// nearest hundredth.
pub open spec fn timestamp_seq(ms: nat) -> Seq<char> {
    let h = (ms + 5) / 10;
    dec_digits(h / 100) + seq!['.', digit_char((h % 100) / 10), digit_char(h % 100 % 10)]
}

/// Format an elapsed time, given in milliseconds, as seconds with two
/// decimals: the text column of a persisted record.
pub fn timestamp_text(ms: u64) -> (r: String)
    requires
        ms <= u64::MAX - 5,
    ensures
        r@ == timestamp_seq(ms as nat),
{
    let h = (ms + 5) / 10;
    let mut s = u64_to_string(h / 100);
    let f = h % 100;
    s.append(".");
    s.append(digit_str(f / 10));
    s.append(digit_str(f % 10));
    proof {
        reveal_strlit(".");
        assert(s@ =~= timestamp_seq(ms as nat));
    }
    s
}

} // verus!
