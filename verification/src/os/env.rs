//! What the environment tells: the time zone, as git writes it.
use vstd::prelude::*;

use crate::text::{decimal, push_decimal};

verus! {

/// Two decimal digits at least, zero first where one is missing.
pub open spec fn two_digits(n: nat) -> Seq<u8> {
    if n < 10 {
        seq![48u8, (48 + n) as u8]
    } else {
        decimal(n)
    }
}

/// The characters of ASCII bytes.
pub open spec fn ascii_chars(b: Seq<u8>) -> Seq<char> {
    b.map_values(|x: u8| x as char)
}

/// A time zone of `tz` minutes east of UTC as git writes it: its sign, then
/// hours and minutes of two digits each.
pub open spec fn tz_string(tz: int) -> Seq<char> {
    let a = if tz < 0 {
        -tz
    } else {
        tz
    };
    seq![
        if tz < 0 {
            '-'
        } else {
            '+'
        },
    ] + ascii_chars(two_digits((a / 60) as nat) + two_digits((a % 60) as nat))
}

fn push_two_digits(out: &mut Vec<u8>, n: u64)
    ensures
        final(out)@ == old(out)@ + two_digits(n as nat),
{
    if n < 10 {
        out.push(48);
    }
    push_decimal(out, n);
    proof {
        if n < 10 {
            assert(decimal(n as nat) == seq![(48 + n) as u8]);
            assert(out@ =~= old(out)@ + two_digits(n as nat));
        }
    }
}

/// The time zone of `tz` minutes east of UTC, as git writes it.
pub fn get_time_zone_string(tz: i16) -> (s: String)
    requires
        tz != i16::MIN,
    ensures
        s@ == tz_string(tz as int),
{
    let a: i16 = if tz < 0 {
        -tz
    } else {
        tz
    };
    let mut digits: Vec<u8> = Vec::new();
    push_two_digits(&mut digits, (a / 60) as u64);
    push_two_digits(&mut digits, (a % 60) as u64);
    let mut s = String::new();
    s.push(
        if tz < 0 {
            '-'
        } else {
            '+'
        },
    );
    let n = digits.len();
    let mut k: usize = 0;
    while k < n
        invariant
            k <= n,
            n == digits@.len(),
            s@ == seq![
                if tz < 0 {
                    '-'
                } else {
                    '+'
                },
            ] + ascii_chars(digits@.subrange(0, k as int)),
        decreases n - k,
    {
        s.push(digits[k] as char);
        proof {
            assert(ascii_chars(digits@.subrange(0, k + 1)) =~= ascii_chars(
                digits@.subrange(0, k as int),
            ).push(digits@[k as int] as char));
        }
        k += 1;
    }
    proof {
        assert(digits@.subrange(0, n as int) =~= digits@);
    }
    s
}

} // verus!
