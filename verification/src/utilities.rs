//! Times and shares as they are shown to a person.
use vstd::prelude::*;

use crate::num::{
    decimal, digit, digit_value, divide_rounded, law_padded_numbers_read_back,
    law_rounding_goes_to_the_nearest, low_digits, padded, push_decimal, push_low_digits, push_padded,
    round_div, value,
};

verus! {

/// Whole minutes in a time.
pub open spec fn minutes(t: int) -> int {
    t / 60_000_000
}

/// Minutes and seconds, the seconds to one decimal place.
pub open spec fn clock(t: int) -> Seq<char> {
    let m = minutes(t);
    let tenths = round_div((t - m * 60_000_000) as nat, 100_000);
    (if m < 0 {
        seq!['-'] + decimal((-m) as nat)
    } else {
        padded(m as nat, 2)
    }) + seq![':'] + padded(tenths / 10, 2) + seq!['.', digit((tenths % 10) as int)]
}

/// A time as minutes and seconds.
pub fn fmt_time(t: i64) -> (r: String)
    ensures
        r@ == clock(t as int),
{
    let rem: i64 = t % 60_000_000;
    let (m, us): (i64, u64) = if t >= 0 {
        (t / 60_000_000, rem as u64)
    } else {
        // Round towards minus infinity.
        let down: i64 = -(((-(t + 1)) / 60_000_000) + 1);
        (down, (t as i128 - down as i128 * 60_000_000) as u64)
    };
    let mut r = String::new();
    if m < 0 {
        r.push('-');
        push_decimal(&mut r, (-m) as u64);
    } else {
        push_padded(&mut r, m as u64, 2);
    }
    r.push(':');
    let tenths: u64 = divide_rounded(us, 100_000);
    push_padded(&mut r, tenths / 10, 2);
    r.push('.');
    push_low_digits(&mut r, tenths % 10, 1);
    proof {
        reveal_with_fuel(low_digits, 2);
    }
    assert(r@ =~= clock(t as int));
    r
}

/// A share of a whole in percent, to one decimal place. There is none of
/// nothing.
pub open spec fn percent(part: nat, whole: nat) -> Seq<char> {
    if whole == 0 {
        "NaN"@
    } else {
        let tenths = round_div(1000 * part, whole);
        decimal(tenths / 10) + seq!['.', digit((tenths % 10) as int)]
    }
}

/// A share of a whole in percent.
pub fn show_percent(part: usize, whole: usize) -> (r: String)
    requires
        part <= 18_000_000_000_000_000,
    ensures
        r@ == percent(part as nat, whole as nat),
{
    if whole == 0 {
        return "NaN".to_string();
    }
    let tenths: u64 = divide_rounded(1000 * part as u64, whole as u64);
    let mut r = String::new();
    push_decimal(&mut r, tenths / 10);
    r.push('.');
    push_low_digits(&mut r, tenths % 10, 1);
    proof {
        reveal_with_fuel(low_digits, 2);
    }
    assert(r@ =~= percent(part as nat, whole as nat));
    r
}

// ---------------------------------------------------------------------------
// Laws
// ---------------------------------------------------------------------------
/// A time is shown as whole minutes and the seconds past them to the nearest
/// tenth, a tie going to the even one.
pub proof fn law_times_are_shown_to_the_tenth(t: int) -> (r: (Seq<char>, Seq<char>, char))
    requires
        0 <= t,
    ensures
        clock(t) == r.0 + seq![':'] + r.1 + seq!['.', r.2],
        ({
            let tenths = value(r.1) * 10 + digit_value(r.2);
            let m = value(r.0);
            &&& 60_000_000 * m <= t < 60_000_000 * m + 60_000_000
            &&& 2 * (t - 60_000_000 * m) - 100_000 <= 200_000 * tenths <= 2 * (t - 60_000_000 * m)
                + 100_000
        }),
        r.0.len() >= 2,
{
    let m = minutes(t);
    let rest = (t - m * 60_000_000) as nat;
    let tenths = round_div(rest, 100_000);
    law_rounding_goes_to_the_nearest(rest, 100_000);
    law_padded_numbers_read_back(m as nat, 2);
    law_padded_numbers_read_back(tenths / 10, 2);
    let d = digit((tenths % 10) as int);
    if (m as nat) >= crate::num::pow10(2) {
        reveal_with_fuel(crate::num::pow10, 3);
        crate::num::law_decimals_read_back((m as nat) / 10);
    }
    (padded(m as nat, 2), padded(tenths / 10, 2), d)
}

/// A share is shown in percent to the nearest tenth.
pub proof fn law_shares_are_shown_to_the_tenth(part: nat, whole: nat) -> (r: (Seq<char>, char))
    requires
        whole > 0,
    ensures
        percent(part, whole) == r.0 + seq!['.', r.1],
        ({
            let tenths = value(r.0) * 10 + digit_value(r.1);
            2000 * part - whole <= 2 * whole * tenths <= 2000 * part + whole
        }),
{
    let tenths = round_div(1000 * part, whole);
    law_rounding_goes_to_the_nearest(1000 * part, whole);
    crate::num::law_decimals_read_back(tenths / 10);
    let d = digit((tenths % 10) as int);
    assert(value(decimal(tenths / 10)) * 10 + digit_value(d) == tenths);
    (decimal(tenths / 10), d)
}

} // verus!
