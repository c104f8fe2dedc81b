//! Verified decimal formatting for the two figures the tables show:
//! byte sizes and durations.

use vstd::prelude::*;
use vstd::string::StringExecFns;

verus! {

/// Relies on std's `String::push`: appends the given character to
/// the end of the string.
#[verifier::external_body]
pub(crate) fn push_char(s: &mut String, c: char)
    ensures
        final (s)@ == old(s)@.push(c),
{
    s.push(c);
}

/// Relies on std's `String::pop`: removes the last character and
/// returns it, or returns nothing from an empty string.
#[verifier::external_body]
pub(crate) fn pop_char(s: &mut String) -> (r: Option<char>)
    ensures
        old(s)@.len() == 0 ==> r is None && final (s)@ == old(s)@,
        old(s)@.len() > 0 ==> r == Some(old(s)@.last()) && final (s)@ == old(s)@.drop_last(),
{
    s.pop()
}

pub open spec fn spec_digit_char(d: nat) -> char {
    if d == 0 {
        '0'
    } else if d == 1 {
        '1'
    } else if d == 2 {
        '2'
    } else if d == 3 {
        '3'
    } else if d == 4 {
        '4'
    } else if d == 5 {
        '5'
    } else if d == 6 {
        '6'
    } else if d == 7 {
        '7'
    } else if d == 8 {
        '8'
    } else {
        '9'
    }
}

/// The decimal digits of `n`, most significant first.
pub open spec fn spec_decimal(n: nat) -> Seq<char>
    decreases n,
{
    if n < 10 {
        seq![spec_digit_char(n)]
    } else {
        spec_decimal(n / 10).push(spec_digit_char(n % 10))
    }
}

fn digit_str(d: u64) -> (r: &'static str)
    requires
        d < 10,
    ensures
        r@ == seq![spec_digit_char(d as nat)],
{
    proof {
        reveal_strlit("0");
        reveal_strlit("1");
        reveal_strlit("2");
        reveal_strlit("3");
        reveal_strlit("4");
        reveal_strlit("5");
        reveal_strlit("6");
        reveal_strlit("7");
        reveal_strlit("8");
        reveal_strlit("9");
    }
    match d {
        0 => "0",
        1 => "1",
        2 => "2",
        3 => "3",
        4 => "4",
        5 => "5",
        6 => "6",
        7 => "7",
        8 => "8",
        _ => "9",
    }
}

/// `n` written in decimal.
pub fn decimal(n: u64) -> (s: String)
    ensures
        s@ == spec_decimal(n as nat),
    decreases n,
{
    if n < 10 {
        digit_str(n).to_owned()
    } else {
        let mut s = decimal(n / 10);
        s.append(digit_str(n % 10));
        proof {
            assert(spec_decimal((n / 10) as nat).push(spec_digit_char((n % 10) as nat))
                =~= spec_decimal((n / 10) as nat) + seq![spec_digit_char((n % 10) as nat)]);
        }
        s
    }
}

/// `n` written in decimal, padded to two digits with a leading zero.
pub open spec fn spec_two_digits(n: nat) -> Seq<char>
    recommends
        n < 100,
{
    if n < 10 {
        seq!['0'].push(spec_digit_char(n))
    } else {
        spec_decimal(n)
    }
}

fn two_digits(n: u64) -> (s: String)
    requires
        n < 100,
    ensures
        s@ == spec_two_digits(n as nat),
{
    if n < 10 {
        let mut s = digit_str(0).to_owned();
        s.append(digit_str(n));
        proof {
            assert(seq!['0'].push(spec_digit_char(n as nat)) =~= seq![spec_digit_char(0)]
                + seq![spec_digit_char(n as nat)]);
        }
        s
    } else {
        decimal(n)
    }
}

/// `n` scaled by `unit` and rounded (half up) to tenths.
pub open spec fn spec_tenths(n: nat, unit: nat) -> nat
    recommends
        unit >= 10,
{
    (n * 10 + unit / 2) / unit
}

/// The tenths value written as `whole.tenth`.
pub open spec fn spec_tenths_str(t: nat) -> Seq<char> {
    spec_decimal(t / 10) + seq!['.'] + seq![spec_digit_char(t % 10)]
}

fn tenths_str(n: u64, unit: u64) -> (s: String)
    requires
        unit >= 10,
        n < 1000000000000,
    ensures
        s@ == spec_tenths_str(spec_tenths(n as nat, unit as nat)),
{
    proof {
        reveal_strlit(".");
    }
    let t = (n * 10 + unit / 2) / unit;
    let mut s = decimal(t / 10);
    s.append(".");
    s.append(digit_str(t % 10));
    proof {
        assert(s@ =~= spec_tenths_str(spec_tenths(n as nat, unit as nat)));
    }
    s
}

/// What `human_readable_size` returns: bytes verbatim below one
/// thousand, then tenths of kB, MB, GB or TB, rounded half up.
pub open spec fn spec_size_str(n: nat) -> Seq<char> {
    if n < 1000 {
        spec_decimal(n) + " B"@
    } else if n < 1000000 {
        spec_tenths_str(spec_tenths(n, 1000)) + " kB"@
    } else if n < 1000000000 {
        spec_tenths_str(spec_tenths(n, 1000000)) + " MB"@
    } else if n < 1000000000000 {
        spec_tenths_str(spec_tenths(n, 1000000000)) + " GB"@
    } else {
        spec_tenths_str(spec_tenths(n, 1000000000000)) + " TB"@
    }
}

/// A byte count in a short human-readable unit (`spec_size_str`).
pub fn human_readable_size(size: u64) -> (s: String)
    ensures
        s@ == spec_size_str(size as nat),
{
    proof {
        reveal_strlit(" B");
        reveal_strlit(" kB");
        reveal_strlit(" MB");
        reveal_strlit(" GB");
        reveal_strlit(" TB");
    }
    if size < 1000 {
        let mut s = decimal(size);
        s.append(" B");
        s
    } else if size < 1000000 {
        let mut s = tenths_str(size, 1000);
        s.append(" kB");
        s
    } else if size < 1000000000 {
        let mut s = tenths_str(size, 1000000);
        s.append(" MB");
        s
    } else if size < 1000000000000 {
        let mut s = tenths_str(size, 1000000000);
        s.append(" GB");
        s
    } else {
        let t128 = (size as u128) * 10 + 500000000000u128;
        proof {
            vstd::arithmetic::div_mod::lemma_div_is_ordered(
                t128 as int,
                0x10_0000_0000_0000_0000,
                1000000000000,
            );
        }
        let t = (t128 / 1000000000000u128) as u64;
        let mut s = decimal(t / 10);
        s.append(".");
        s.append(digit_str(t % 10));
        s.append(" TB");
        proof {
            reveal_strlit(".");
            assert(s@ =~= spec_size_str(size as nat));
        }
        s
    }
}

/// What `human_readable_seconds` returns: plain seconds under a
/// minute, else `m:ss`; hours are not carried (the minute count wraps
/// at sixty, as the tables only size short clips).
pub open spec fn spec_seconds_str(n: nat) -> Seq<char> {
    if n % 3600 < 60 {
        spec_decimal(n % 60)
    } else {
        spec_decimal((n / 60) % 60) + seq![':'] + spec_two_digits(n % 60)
    }
}

/// A duration in seconds as `s` or `m:ss` (`spec_seconds_str`).
pub fn human_readable_seconds(seconds: u64) -> (s: String)
    ensures
        s@ == spec_seconds_str(seconds as nat),
{
    proof {
        reveal_strlit(":");
    }
    let secs = seconds % 60;
    let mins = (seconds / 60) % 60;
    if mins == 0 {
        proof {
            assert(seconds % 3600 == (seconds % 3600) % 3600);
            assert(seconds as nat % 3600 < 60 <==> (seconds as nat / 60) % 60 == 0) by {
                let n = seconds as nat;
                assert(n % 3600 == ((n / 60) % 60) * 60 + n % 60) by (nonlinear_arith);
            }
        }
        decimal(secs)
    } else {
        let mut s = decimal(mins);
        s.append(":");
        let t = two_digits(secs);
        s.append(t.as_str());
        proof {
            let n = seconds as nat;
            assert(n % 3600 == ((n / 60) % 60) * 60 + n % 60) by (nonlinear_arith);
            assert(s@ =~= spec_seconds_str(seconds as nat));
        }
        s
    }
}

} // verus!
