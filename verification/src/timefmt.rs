//! Clocks and relative-time labels.
//!
//! Time is carried as plain seconds since the Unix epoch, so the arithmetic
//! behind "30m ago" is ordinary integer division and fully specified; only
//! reading the system clock is trusted.

use vstd::prelude::*;

verus! {

/// The largest timestamp the formatter renders as a date distance; anything
/// above it falls outside the supported calendar range and is shown as `?`.
pub const MAX_FORMAT_TS: u64 = 8_210_266_876_799;

/// A source of the current time, in seconds since the Unix epoch. The
/// application implements it over the system clock; tests pin it to a fixed
/// second.
pub trait Clock {
    fn now(&self) -> u64;
}

pub struct SystemClock;

impl Clock for SystemClock {
    fn now(&self) -> u64 {
        now_unix()
    }
}

pub fn system_clock() -> SystemClock {
    SystemClock
}

pub struct FixedClock(pub u64);

impl Clock for FixedClock {
    fn now(&self) -> (r: u64)
    {
        self.0
    }
}

pub fn fixed_clock(timestamp: u64) -> (r: FixedClock)
    ensures
        r.0 == timestamp,
{
    FixedClock(timestamp)
}

/// Relies on std::time::SystemTime::now and duration_since: the current
/// time as seconds since the Unix epoch. A clock reading before the epoch
/// counts as the epoch itself, so the read always returns.
#[verifier::external_body]
pub fn now_unix() -> u64 {
    match std::time::SystemTime::now().duration_since(std::time::UNIX_EPOCH) {
        Ok(d) => d.as_secs(),
        Err(_) => 0,
    }
}

pub open spec fn digit_char(d: nat) -> char {
    if d == 0 {
        '0'
    } else if d == 1 {
        '1'
    } else if d == 2 {
        '2'
    } else if d == 3 {
        '3'
    } else if d == 4 {
        '4'
    } else if d == 5 {
        '5'
    } else if d == 6 {
        '6'
    } else if d == 7 {
        '7'
    } else if d == 8 {
        '8'
    } else {
        '9'
    }
}

/// The decimal digits of `n`, most significant first.
pub open spec fn dec_digits(n: nat) -> Seq<char>
    decreases n,
{
    if n < 10 {
        seq![digit_char(n)]
    } else {
        dec_digits(n / 10) + seq![digit_char(n % 10)]
    }
}

fn digit_char_of(d: u64) -> (r: char)
    requires
        d < 10,
    ensures
        r == digit_char(d as nat),
{
    if d == 0 {
        '0'
    } else if d == 1 {
        '1'
    } else if d == 2 {
        '2'
    } else if d == 3 {
        '3'
    } else if d == 4 {
        '4'
    } else if d == 5 {
        '5'
    } else if d == 6 {
        '6'
    } else if d == 7 {
        '7'
    } else if d == 8 {
        '8'
    } else {
        '9'
    }
}

/// Appends the decimal form of `n` to `out`.
pub(crate) fn push_u64_decimal(out: &mut Vec<char>, n: u64)
    ensures
        final(out)@ == old(out)@ + dec_digits(n as nat),
{
    let mut rev: Vec<char> = Vec::new();
    let mut cur = n;
    if cur == 0 {
        out.push('0');
        proof {
            assert(dec_digits(0) =~= seq!['0']);
            assert(out@ =~= old(out)@ + dec_digits(0));
        }
        return ;
    }
    while cur > 0
        invariant
            cur > 0 ==> dec_digits(n as nat) == dec_digits(cur as nat) + rev@.reverse(),
            cur == 0 ==> dec_digits(n as nat) == rev@.reverse(),
        decreases cur,
    {
        let d = cur % 10;
        let ghost rev0 = rev@;
        rev.push(digit_char_of(d));
        proof {
            assert(rev@.reverse() =~= seq![digit_char(d as nat)] + rev0.reverse());
            if cur / 10 > 0 {
                assert(dec_digits(cur as nat) == dec_digits((cur / 10) as nat) + seq![
                    digit_char((cur % 10) as nat),
                ]);
                assert(dec_digits((cur / 10) as nat) + rev@.reverse() =~= dec_digits(cur as nat)
                    + rev0.reverse());
            } else {
                assert(cur < 10);
                assert(dec_digits(cur as nat) == seq![digit_char(cur as nat)]);
                assert(rev@.reverse() =~= dec_digits(cur as nat) + rev0.reverse());
            }
        }
        cur = cur / 10;
    }
    let k = rev.len();
    let mut j: usize = 0;
    let ghost out_before = out@;
    while j < k
        invariant
            k == rev@.len(),
            0 <= j <= k,
            out@ == out_before + rev@.reverse().take(j as int),
        decreases k - j,
    {
        out.push(rev[k - 1 - j]);
        proof {
            assert(rev@.reverse()[j as int] == rev@[k - 1 - j]);
            assert(out@ =~= out_before + rev@.reverse().take(j + 1 as int));
        }
        j += 1;
    }
    proof {
        assert(rev@.reverse().take(k as int) =~= rev@.reverse());
    }
}

/// Relies on String's FromIterator over char: collecting a character vector
/// yields the string of exactly those characters.
#[verifier::external_body]
pub(crate) fn chars_to_string(v: Vec<char>) -> (r: String)
    ensures
        r@ == v@,
{
    v.into_iter().collect()
}

/// The label `format_relative` produces: a minute count under an hour, an
/// hour count under a day, a day count beyond; counts are whole units toward
/// zero, a timestamp ahead of the clock yields negative minutes, and a
/// timestamp past the calendar range yields `?`.
pub open spec fn rel_label(timestamp: u64, now: u64) -> Seq<char> {
    if timestamp > MAX_FORMAT_TS {
        seq!['?']
    } else if now >= timestamp {
        let d = (now - timestamp) as nat;
        if d < 3600 {
            dec_digits(d / 60) + seq!['m', ' ', 'a', 'g', 'o']
        } else if d < 86400 {
            dec_digits(d / 3600) + seq!['h', ' ', 'a', 'g', 'o']
        } else {
            dec_digits(d / 86400) + seq!['d', ' ', 'a', 'g', 'o']
        }
    } else {
        let d = (timestamp - now) as nat;
        if d / 60 == 0 {
            seq!['0', 'm', ' ', 'a', 'g', 'o']
        } else {
            seq!['-'] + dec_digits(d / 60) + seq!['m', ' ', 'a', 'g', 'o']
        }
    }
}

fn push_suffix(out: &mut Vec<char>, unit: char)
    ensures
        final(out)@ == old(out)@ + seq![unit, ' ', 'a', 'g', 'o'],
{
    let ghost o0 = out@;
    out.push(unit);
    out.push(' ');
    out.push('a');
    out.push('g');
    out.push('o');
    proof {
        assert(out@ =~= o0 + seq![unit, ' ', 'a', 'g', 'o']);
    }
}

/// How long ago `timestamp` lies as seen from `now`, in the coarsest unit
/// that fits: minutes under an hour, hours under a day, days beyond.
pub fn format_relative(timestamp: u64, now: u64) -> (r: String)
    ensures
        r@ == rel_label(timestamp, now),
{
    let mut out: Vec<char> = Vec::new();
    if timestamp > MAX_FORMAT_TS {
        out.push('?');
        proof {
            assert(out@ =~= rel_label(timestamp, now));
        }
    } else if now >= timestamp {
        let d = now - timestamp;
        if d < 3600 {
            push_u64_decimal(&mut out, d / 60);
            push_suffix(&mut out, 'm');
        } else if d < 86400 {
            push_u64_decimal(&mut out, d / 3600);
            push_suffix(&mut out, 'h');
        } else {
            push_u64_decimal(&mut out, d / 86400);
            push_suffix(&mut out, 'd');
        }
        proof {
            assert(out@ =~= rel_label(timestamp, now));
        }
    } else {
        let d = timestamp - now;
        if d / 60 == 0 {
            out.push('0');
            push_suffix(&mut out, 'm');
        } else {
            out.push('-');
            push_u64_decimal(&mut out, d / 60);
            push_suffix(&mut out, 'm');
        }
        proof {
            assert(out@ =~= rel_label(timestamp, now));
        }
    }
    chars_to_string(out)
}

} // verus!
