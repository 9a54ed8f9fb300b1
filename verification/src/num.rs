//! Fixed-point numbers: how they are written and how they are read.
//!
//! Seconds, decibels, loudness units and ratios are all held as whole
//! millionths, so every comparison in the library is exact. A measurement may
//! also be infinite, or no number at all; three values are set aside for that.
use vstd::prelude::*;

use crate::text::{
    ascii_lower, char_ascii_lower, chars_of, drop_back, is_ascii_digit, same,
};

verus! {

/// Ten to the power `n`.
pub open spec fn pow10(n: nat) -> nat
    decreases n,
{
    if n == 0 {
        1
    } else {
        10 * pow10((n - 1) as nat)
    }
}

pub proof fn lemma_pow10_positive(n: nat)
    ensures
        pow10(n) >= 1,
    decreases n,
{
    if n > 0 {
        lemma_pow10_positive((n - 1) as nat);
    }
}

/// Ten to the power `n`, for the powers that fit.
fn power_of_ten(n: u32) -> (p: u64)
    requires
        n <= 18,
    ensures
        p == pow10(n as nat),
        1 <= p <= 1_000_000_000_000_000_000,
{
    let mut p: u64 = 1;
    let mut i: u32 = 0;
    assert(pow10(18) == 1_000_000_000_000_000_000) by {
        reveal_with_fuel(pow10, 20);
    }
    while i < n
        invariant
            i <= n <= 18,
            p == pow10(i as nat),
            pow10(18) == 1_000_000_000_000_000_000,
        decreases n - i,
    {
        proof {
            lemma_pow10_monotone((i + 1) as nat, 18);
        }
        p = p * 10;
        i += 1;
    }
    proof {
        lemma_pow10_monotone(n as nat, 18);
        lemma_pow10_positive(n as nat);
    }
    p
}

pub proof fn lemma_pow10_monotone(a: nat, b: nat)
    requires
        a <= b,
    ensures
        pow10(a) <= pow10(b),
    decreases b,
{
    if a < b {
        lemma_pow10_monotone(a, (b - 1) as nat);
    }
}

// ---------------------------------------------------------------------------
// Writing
// ---------------------------------------------------------------------------
/// The character for one decimal digit.
pub open spec fn digit(d: int) -> char {
    (48 + d) as u8 as char
}

/// `n` in decimal.
pub open spec fn decimal(n: nat) -> Seq<char>
    decreases n,
{
    if n < 10 {
        seq![digit(n as int)]
    } else {
        decimal(n / 10).push(digit((n % 10) as int))
    }
}

/// The lowest `w` decimal digits of `n`, leading zeros included.
pub open spec fn low_digits(n: nat, w: nat) -> Seq<char>
    decreases w,
{
    if w == 0 {
        Seq::empty()
    } else {
        low_digits(n / 10, (w - 1) as nat).push(digit((n % 10) as int))
    }
}

/// `n` in decimal, with leading zeros up to `w` digits.
pub open spec fn padded(n: nat, w: nat) -> Seq<char> {
    if n < pow10(w) {
        low_digits(n, w)
    } else {
        decimal(n)
    }
}

/// `n / d` to the nearest whole number, a tie going to the even one.
pub open spec fn round_div(n: nat, d: nat) -> nat {
    let q = n / d;
    let r = n % d;
    if 2 * r < d {
        q
    } else if 2 * r > d {
        q + 1
    } else {
        q + q % 2
    }
}

pub open spec fn magnitude(v: int) -> nat {
    if v < 0 {
        (-v) as nat
    } else {
        v as nat
    }
}

/// The sign of a number as it is written: nothing in front of a positive one.
pub open spec fn sign(v: int) -> Seq<char> {
    if v < 0 {
        seq!['-']
    } else {
        Seq::empty()
    }
}

/// `v`, counted in units of ten to the minus `scale`, written to `places`
/// decimal places, without its sign.
pub open spec fn fixed_magnitude(v: int, scale: nat, places: nat) -> Seq<char> {
    let m = round_div(magnitude(v), pow10((scale - places) as nat));
    let whole = decimal(m / pow10(places));
    if places == 0 {
        whole
    } else {
        whole.push('.') + low_digits(m % pow10(places), places)
    }
}

// ---------------------------------------------------------------------------
// The ends of the range
// ---------------------------------------------------------------------------
/// The upper end of the range stands for infinity and for whatever is too large
/// to hold, and its negative for what is as far the other way.
pub const INFINITE: i64 = i64::MAX;

/// What a measurement gives that is no number at all.
pub const NOT_A_NUMBER: i64 = i64::MIN;

/// A number proper, neither infinite nor none at all.
pub open spec fn is_finite(v: int) -> bool {
    -INFINITE < v < INFINITE
}

/// A number held to the range.
pub open spec fn held(v: int) -> int {
    if v < -INFINITE {
        -INFINITE
    } else if v > INFINITE {
        INFINITE as int
    } else {
        v
    }
}

/// The difference of two numbers, either of which may be infinite. Two
/// infinities of one sign have none.
pub open spec fn minus(a: int, b: int) -> int {
    if a == NOT_A_NUMBER || b == NOT_A_NUMBER {
        NOT_A_NUMBER as int
    } else if is_finite(a) && is_finite(b) {
        held(a - b)
    } else if is_finite(a) {
        -b
    } else if is_finite(b) || a != b {
        a
    } else {
        NOT_A_NUMBER as int
    }
}

/// The sum of two numbers, either of which may be infinite.
pub open spec fn plus(a: int, b: int) -> int {
    if b == NOT_A_NUMBER {
        NOT_A_NUMBER as int
    } else {
        minus(a, -b)
    }
}

/// What stands in place of digits for a number that has none, without its sign.
pub open spec fn name_of(v: int) -> Seq<char> {
    if v == NOT_A_NUMBER {
        "NaN"@
    } else {
        "inf"@
    }
}

/// Tests whether a number is one proper.
pub fn finite(v: i64) -> (b: bool)
    ensures
        b == is_finite(v as int),
{
    -INFINITE < v && v < INFINITE
}

/// Subtracts one number from another.
pub fn subtract(a: i64, b: i64) -> (r: i64)
    ensures
        r == minus(a as int, b as int),
{
    if a == NOT_A_NUMBER || b == NOT_A_NUMBER {
        NOT_A_NUMBER
    } else if finite(a) && finite(b) {
        let d: i128 = a as i128 - b as i128;
        if d < -(INFINITE as i128) {
            -INFINITE
        } else if d > INFINITE as i128 {
            INFINITE
        } else {
            d as i64
        }
    } else if finite(a) {
        -b
    } else if finite(b) || a != b {
        a
    } else {
        NOT_A_NUMBER
    }
}

/// Adds two numbers.
pub fn sum(a: i64, b: i64) -> (r: i64)
    ensures
        r == plus(a as int, b as int),
{
    if b == NOT_A_NUMBER {
        NOT_A_NUMBER
    } else {
        subtract(a, -b)
    }
}

fn name(v: i64) -> (r: &'static str)
    ensures
        r@ == name_of(v as int),
{
    if v == NOT_A_NUMBER {
        "NaN"
    } else {
        "inf"
    }
}

// ---------------------------------------------------------------------------
// Writing
// ---------------------------------------------------------------------------
/// `v` millionths written to `places` decimal places.
pub open spec fn fixed(v: int, places: nat) -> Seq<char> {
    if v == NOT_A_NUMBER {
        name_of(v)
    } else if v == INFINITE || v == -INFINITE {
        sign(v) + name_of(v)
    } else {
        sign(v) + fixed_magnitude(v, 6, places)
    }
}

/// Like [`fixed`], with the sign always written.
pub open spec fn fixed_signed(v: int, places: nat) -> Seq<char> {
    let sign = if v < 0 {
        seq!['-']
    } else {
        seq!['+']
    };
    if v == NOT_A_NUMBER {
        name_of(v)
    } else if v == INFINITE || v == -INFINITE {
        sign + name_of(v)
    } else {
        sign + fixed_magnitude(v, 6, places)
    }
}

/// `v` millionths with no more decimal places than it needs.
pub open spec fn shortest(v: int) -> Seq<char> {
    let whole = sign(v) + decimal(magnitude(v) / 1_000_000);
    let part = magnitude(v) % 1_000_000;
    if v == NOT_A_NUMBER {
        name_of(v)
    } else if v == INFINITE || v == -INFINITE {
        sign(v) + name_of(v)
    } else if part == 0 {
        whole
    } else {
        whole.push('.') + drop_back(low_digits(part, 6), |c: char| c == '0')
    }
}

fn push_digit(out: &mut String, d: u64)
    requires
        d < 10,
    ensures
        final(out)@ == old(out)@.push(digit(d as int)),
{
    out.push((48u8 + d as u8) as char);
}

/// Appends `n` in decimal.
pub fn push_decimal(out: &mut String, n: u64)
    ensures
        final(out)@ == old(out)@ + decimal(n as nat),
    decreases n,
{
    if n < 10 {
        push_digit(out, n);
        assert(out@ == old(out)@ + decimal(n as nat));
    } else {
        push_decimal(out, n / 10);
        push_digit(out, n % 10);
        assert(out@ == old(out)@ + decimal(n as nat));
    }
}

/// Appends the lowest `w` digits of `n`.
pub fn push_low_digits(out: &mut String, n: u64, w: u32)
    ensures
        final(out)@ == old(out)@ + low_digits(n as nat, w as nat),
    decreases w,
{
    if w > 0 {
        push_low_digits(out, n / 10, w - 1);
        push_digit(out, n % 10);
    }
    assert(out@ == old(out)@ + low_digits(n as nat, w as nat));
}

/// Appends `n` with leading zeros up to `w` digits.
pub fn push_padded(out: &mut String, n: u64, w: u32)
    requires
        w <= 18,
    ensures
        final(out)@ == old(out)@ + padded(n as nat, w as nat),
{
    if n < power_of_ten(w) {
        push_low_digits(out, n, w);
    } else {
        push_decimal(out, n);
    }
}

/// Nearest whole quotient, a tie going to the even one.
pub fn divide_rounded(n: u64, d: u64) -> (q: u64)
    requires
        d >= 1,
    ensures
        q == round_div(n as nat, d as nat),
{
    let q: u64 = n / d;
    let r: u64 = n % d;
    let rest: u64 = d - r;
    proof {
        if d == 1 {
            assert(n % d == 0);
        } else {
            assert(n / d <= n / 2) by (nonlinear_arith)
                requires
                    d >= 2,
            ;
        }
    }
    if r < rest {
        q
    } else if r > rest {
        q + 1
    } else {
        q + q % 2
    }
}

fn magnitude_of(v: i64) -> (m: u64)
    ensures
        m == magnitude(v as int),
{
    if v >= 0 {
        v as u64
    } else {
        (-(v + 1)) as u64 + 1
    }
}

/// Appends the magnitude of `v` to `places` decimal places.
fn push_fixed_magnitude(out: &mut String, v: i64, scale: u32, places: u32)
    requires
        places <= scale <= 18,
    ensures
        final(out)@ == old(out)@ + fixed_magnitude(v as int, scale as nat, places as nat),
{
    let unit: u64 = power_of_ten(scale - places);
    let m: u64 = divide_rounded(magnitude_of(v), unit);
    let one: u64 = power_of_ten(places);
    assert(m % one == m as nat % one as nat);
    push_decimal(out, m / one);
    if places > 0 {
        out.push('.');
        push_low_digits(out, m % one, places);
    }
    assert(out@ == old(out)@ + fixed_magnitude(v as int, scale as nat, places as nat));
}

/// `v` millionths to `places` decimal places.
pub fn show_fixed(v: i64, places: u32) -> (r: String)
    requires
        places <= 6,
    ensures
        r@ == fixed(v as int, places as nat),
{
    let mut r = String::new();
    if v == NOT_A_NUMBER {
        return name(v).to_string();
    }
    if v < 0 {
        r.push('-');
    }
    assert(r@ == sign(v as int));
    if finite(v) {
        push_fixed_magnitude(&mut r, v, 6, places);
    } else {
        r.append(name(v));
    }
    r
}

/// `v` millionths to `places` decimal places, with its sign.
pub fn show_fixed_signed(v: i64, places: u32) -> (r: String)
    requires
        places <= 6,
    ensures
        r@ == fixed_signed(v as int, places as nat),
{
    let mut r = String::new();
    if v == NOT_A_NUMBER {
        return name(v).to_string();
    }
    if v < 0 {
        r.push('-');
        assert(r@ == seq!['-']);
    } else {
        r.push('+');
        assert(r@ == seq!['+']);
    }
    if finite(v) {
        push_fixed_magnitude(&mut r, v, 6, places);
    } else {
        r.append(name(v));
    }
    r
}

/// `v` thousand-millionths to `places` decimal places.
pub fn show_fixed_nano(v: i64, places: u32) -> (r: String)
    requires
        places <= 9,
    ensures
        r@ == sign(v as int) + fixed_magnitude(v as int, 9, places as nat),
{
    let mut r = String::new();
    if v < 0 {
        r.push('-');
    }
    assert(r@ == sign(v as int));
    push_fixed_magnitude(&mut r, v, 9, places);
    r
}

/// Appends the digits of `low_digits(n, w)` that are left once trailing zeros
/// are dropped.
pub fn push_low_digits_trimmed(out: &mut String, n: u64, w: u32)
    ensures
        final(out)@ == old(out)@ + drop_back(
            low_digits(n as nat, w as nat),
            |c: char| c == '0',
        ),
    decreases w,
{
    if w == 0 {
    } else if n % 10 == 0 {
        let ghost all = low_digits(n as nat, w as nat);
        assert(all.drop_last() == low_digits(n as nat / 10, (w - 1) as nat));
        assert(all.last() == '0');
        push_low_digits_trimmed(out, n / 10, w - 1);
    } else {
        let ghost all = low_digits(n as nat, w as nat);
        assert(all.last() == digit((n % 10) as int));
        assert(all.last() != '0');
        push_low_digits(out, n, w);
    }
    assert(out@ == old(out)@ + drop_back(low_digits(n as nat, w as nat), |c: char| c == '0'));
}

/// `v` millionths with no more decimal places than it needs.
pub fn show_shortest(v: i64) -> (r: String)
    ensures
        r@ == shortest(v as int),
{
    let mut r = String::new();
    if v == NOT_A_NUMBER {
        return name(v).to_string();
    }
    if v < 0 {
        r.push('-');
    }
    assert(r@ == sign(v as int));
    if !finite(v) {
        r.append(name(v));
        return r;
    }
    let m: u64 = magnitude_of(v);
    push_decimal(&mut r, m / 1_000_000);
    let part: u64 = m % 1_000_000;
    if part != 0 {
        r.push('.');
        push_low_digits_trimmed(&mut r, part, 6);
    }
    r
}

/// A count in decimal.
pub fn show_count(n: usize) -> (r: String)
    ensures
        r@ == decimal(n as nat),
{
    let mut r = String::new();
    push_decimal(&mut r, n as u64);
    assert(r@ == decimal(n as nat));
    r
}

// ---------------------------------------------------------------------------
// Reading
// ---------------------------------------------------------------------------
/// The first index at or after `i` that does not hold a digit, or `to`.
pub open spec fn digits_end(s: Seq<char>, i: int, to: int) -> int
    decreases to - i,
{
    if i < to && is_ascii_digit(s[i]) {
        digits_end(s, i + 1, to)
    } else {
        i
    }
}

pub open spec fn digit_value(c: char) -> int {
    c as u32 - 48
}

/// The number that a run of digits writes.
pub open spec fn value(digits: Seq<char>) -> nat
    decreases digits.len(),
{
    if digits.len() == 0 {
        0
    } else {
        10 * value(digits.drop_last()) + digit_value(digits.last()) as nat
    }
}

/// A decimal number as it is written: digits, the position of the point among
/// them, and the sign.
#[verifier::ext_equal]
pub struct Written {
    pub negative: bool,
    pub digits: Seq<char>,
    /// How many of the digits stand before the point.
    pub point: int,
}

/// Where a number starts once its sign is passed.
pub open spec fn after_sign(s: Seq<char>, i: int) -> int {
    if i < s.len() && (s[i] == '+' || s[i] == '-') {
        i + 1
    } else {
        i
    }
}

/// The exponent that starts at `i`, right to the end of the text.
pub open spec fn exponent_at(s: Seq<char>, i: int) -> Option<int> {
    let from = after_sign(s, i);
    let v = value(s.subrange(from, s.len() as int)) as int;
    if from >= s.len() || digits_end(s, from, s.len() as int) != s.len() {
        None
    } else if s[i] == '-' {
        Some(-v)
    } else {
        Some(v)
    }
}

/// Reads a decimal number: a sign, digits with at most one point among them,
/// and an exponent; sign and exponent may be missing.
pub open spec fn written(s: Seq<char>) -> Option<Written> {
    let n = s.len() as int;
    let a = after_sign(s, 0);
    let b = digits_end(s, a, n);
    let has_point = b < n && s[b] == '.';
    let c = if has_point {
        digits_end(s, b + 1, n)
    } else {
        b
    };
    let digits = s.subrange(a, b) + (if has_point {
        s.subrange(b + 1, c)
    } else {
        Seq::empty()
    });
    let exponent = if c == n {
        Some(0)
    } else if s[c] == 'e' || s[c] == 'E' {
        exponent_at(s, c + 1)
    } else {
        None
    };
    if digits.len() == 0 || exponent is None {
        None
    } else {
        Some(
            Written {
                negative: n > 0 && s[0] == '-',
                digits,
                point: b - a + exponent.unwrap(),
            },
        )
    }
}

/// The digits read with the point after the first `p` of them, to the nearest
/// whole number.
pub open spec fn rounded(digits: Seq<char>, p: int) -> int {
    if p < 0 {
        0
    } else if p >= digits.len() {
        (value(digits) * pow10((p - digits.len()) as nat)) as int
    } else {
        value(digits.take(p)) + (if digit_value(digits[p]) >= 5 {
            1int
        } else {
            0
        })
    }
}

/// What a text writes, in millionths.
pub open spec fn micros(s: Seq<char>) -> Option<int> {
    match written(s) {
        None => None,
        Some(w) => {
            let m = rounded(w.digits, w.point + 6);
            if w.negative {
                Some(-m)
            } else {
                Some(m)
            }
        },
    }
}

fn skip_digits(v: &Vec<char>, i: usize) -> (r: usize)
    requires
        i <= v@.len(),
    ensures
        r == digits_end(v@, i as int, v@.len() as int),
        i <= r <= v@.len(),
        forall|k: int| i <= k < r ==> is_ascii_digit(#[trigger] v@[k]),
{
    let n: usize = v.len();
    let mut k: usize = i;
    while k < n && '0' <= v[k] && v[k] <= '9'
        invariant
            i <= k <= n,
            n == v@.len(),
            digits_end(v@, i as int, n as int) == digits_end(v@, k as int, n as int),
            forall|q: int| i <= q < k ==> is_ascii_digit(#[trigger] v@[q]),
        decreases n - k,
    {
        k += 1;
    }
    k
}

proof fn lemma_value_push(digits: Seq<char>, c: char)
    ensures
        value(digits.push(c)) == 10 * value(digits) + digit_value(c) as nat,
{
    assert(digits.push(c).drop_last() =~= digits);
}

/// More digits never make the number smaller.
proof fn lemma_value_grows(digits: Seq<char>, k: int)
    requires
        0 <= k <= digits.len(),
    ensures
        value(digits.take(k)) <= value(digits),
    decreases digits.len(),
{
    if k < digits.len() {
        lemma_value_grows(digits.drop_last(), k);
        assert(digits.drop_last().take(k) =~= digits.take(k));
    } else {
        assert(digits.take(k) =~= digits);
    }
}

/// An exponent past this moves the point further than any text has digits.
const EXPONENT_LIMIT: i128 = 0x4_0000_0000_0000_0000;

/// A point this far out has no digit on its other side.
const FAR: i128 = 0x2_0000_0000_0000_0000;

/// The value of `v[from..to]`, or `None` when it is over `limit`.
fn bounded_value(v: &Vec<char>, from: usize, to: usize, limit: i128) -> (r: Option<i128>)
    requires
        from <= to <= v@.len(),
        forall|k: int| from <= k < to ==> is_ascii_digit(#[trigger] v@[k]),
        0 <= limit <= EXPONENT_LIMIT,
    ensures
        match r {
            Some(x) => x == value(v@.subrange(from as int, to as int)) && 0 <= x <= limit,
            None => value(v@.subrange(from as int, to as int)) > limit,
        },
{
    let ghost all = v@.subrange(from as int, to as int);
    let mut x: i128 = 0;
    let mut i: usize = from;
    assert(all.take(0) =~= Seq::<char>::empty());
    while i < to
        invariant
            from <= i <= to <= v@.len(),
            forall|k: int| from <= k < to ==> is_ascii_digit(#[trigger] v@[k]),
            0 <= limit <= EXPONENT_LIMIT,
            0 <= x <= limit,
            all == v@.subrange(from as int, to as int),
            x == value(all.take(i - from)),
        decreases to - i,
    {
        proof {
            lemma_value_push(all.take(i - from), v@[i as int]);
            assert(all.take(i - from).push(v@[i as int]) =~= all.take(i + 1 - from));
            assert(is_ascii_digit(v@[i as int]));
        }
        x = x * 10 + (v[i] as u32 as i128 - 48);
        i += 1;
        if x > limit {
            proof {
                lemma_value_grows(all, i - from);
            }
            return None;
        }
    }
    assert(all.take(i - from) =~= all);
    Some(x)
}

/// `x` followed by `zeros` zeros, or `None` when that is over `limit`.
fn shifted(x: i128, zeros: u64, limit: i128) -> (r: Option<i128>)
    requires
        0 <= x <= limit <= 0x1_0000_0000_0000_0000,
    ensures
        match r {
            Some(y) => y == x * pow10(zeros as nat) && 0 <= y <= limit,
            None => x * pow10(zeros as nat) > limit,
        },
{
    if x == 0 {
        return Some(0);
    }
    let mut y: i128 = x;
    let mut k: u64 = 0;
    assert(pow10(0) == 1);
    assert(x == x * pow10(0));
    while k < zeros
        invariant
            k <= zeros,
            0 < x,
            0 < y <= limit <= 0x1_0000_0000_0000_0000,
            y == x * pow10(k as nat),
        decreases zeros - k,
    {
        let ghost (gx, gp) = (x as int, pow10(k as nat) as int);
        assert(gx * (10 * gp) == 10 * (gx * gp)) by (nonlinear_arith);
        y = y * 10;
        k += 1;
        if y > limit {
            proof {
                lemma_pow10_monotone(k as nat, zeros as nat);
                let (p, q) = (pow10(k as nat) as int, pow10(zeros as nat) as int);
                assert(gx * p <= gx * q) by (nonlinear_arith)
                    requires
                        0 < gx,
                        p <= q,
                ;
            }
            return None;
        }
    }
    Some(y)
}

proof fn lemma_digits_end(s: Seq<char>, i: int, to: int)
    requires
        i <= to,
    ensures
        i <= digits_end(s, i, to) <= to,
    decreases to - i,
{
    if i < to && is_ascii_digit(s[i]) {
        lemma_digits_end(s, i + 1, to);
    }
}

/// Whether `a` stands for the exponent or the place `b`: it is the same, or
/// both are so far out on one side that no digit is left there.
spec fn stands_for(a: int, b: int, far: int) -> bool {
    a == b || (a <= -far && b <= -far) || (a >= far && b >= far)
}

/// The exponent at `i`, held within the limit.
fn read_exponent(v: &Vec<char>, i: usize) -> (r: Option<i128>)
    requires
        i <= v@.len(),
    ensures
        match r {
            Some(e) => exponent_at(v@, i as int) is Some && stands_for(
                e as int,
                exponent_at(v@, i as int).unwrap(),
                EXPONENT_LIMIT as int,
            ) && -EXPONENT_LIMIT <= e <= EXPONENT_LIMIT,
            None => exponent_at(v@, i as int) is None,
        },
{
    let n: usize = v.len();
    let signed = i < n && (v[i] == '+' || v[i] == '-');
    let from: usize = if signed {
        i + 1
    } else {
        i
    };
    if from >= n || skip_digits(v, from) != n {
        return None;
    }
    let size: i128 = match bounded_value(v, from, n, EXPONENT_LIMIT) {
        None => EXPONENT_LIMIT,
        Some(x) => x,
    };
    if v[i] == '-' {
        Some(-size)
    } else {
        Some(size)
    }
}

/// The digits of a number on either side of its point.
fn collect_digits(v: &Vec<char>, a: usize, b: usize, c: usize) -> (digits: Vec<char>)
    requires
        a <= b <= c <= v@.len(),
        forall|k: int| a <= k < b ==> is_ascii_digit(#[trigger] v@[k]),
        forall|k: int| b < k < c ==> is_ascii_digit(#[trigger] v@[k]),
    ensures
        digits@ == v@.subrange(a as int, b as int) + (if b < c {
            v@.subrange(b + 1, c as int)
        } else {
            Seq::empty()
        }),
        forall|k: int| 0 <= k < digits@.len() ==> is_ascii_digit(#[trigger] digits@[k]),
{
    let mut digits: Vec<char> = Vec::new();
    let mut i: usize = a;
    while i < b
        invariant
            a <= i <= b <= v@.len(),
            forall|k: int| a <= k < b ==> is_ascii_digit(#[trigger] v@[k]),
            digits@ == v@.subrange(a as int, i as int),
        decreases b - i,
    {
        digits.push(v[i]);
        i += 1;
        assert(digits@ =~= v@.subrange(a as int, i as int));
    }
    let ghost whole = digits@;
    if b < c {
        let mut j: usize = b + 1;
        assert(digits@ =~= whole + v@.subrange(b + 1, j as int));
        while j < c
            invariant
                b < j <= c <= v@.len(),
                digits@ == whole + v@.subrange(b + 1, j as int),
            decreases c - j,
        {
            digits.push(v[j]);
            j += 1;
            assert(digits@ =~= whole + v@.subrange(b + 1, j as int));
        }
    }
    assert(digits@ =~= v@.subrange(a as int, b as int) + (if b < c {
        v@.subrange(b + 1, c as int)
    } else {
        Seq::empty()
    }));
    digits
}

/// The parts of a written number: its sign, its digits and where the point is,
/// as far as that can matter.
fn read_written(v: &Vec<char>) -> (r: Option<(bool, Vec<char>, i128)>)
    ensures
        match r {
            Some(x) => {
                &&& written(v@) is Some
                &&& written(v@).unwrap().negative == x.0
                &&& written(v@).unwrap().digits == x.1@
                &&& stands_for(x.2 as int, written(v@).unwrap().point, FAR as int)
                &&& forall|k: int| 0 <= k < x.1@.len() ==> is_ascii_digit(#[trigger] x.1@[k])
                &&& -EXPONENT_LIMIT <= x.2 <= 0x1_0000_0000_0000_0000 + EXPONENT_LIMIT
            },
            None => written(v@) is None,
        },
{
    let n: usize = v.len();
    let negative = n > 0 && v[0] == '-';
    let a: usize = if n > 0 && (v[0] == '+' || v[0] == '-') {
        1
    } else {
        0
    };
    let b: usize = skip_digits(v, a);
    let has_point = b < n && v[b] == '.';
    let c: usize = if has_point {
        skip_digits(v, b + 1)
    } else {
        b
    };
    let digits = collect_digits(v, a, b, c);
    if digits.len() == 0 {
        return None;
    }
    let exponent: i128 = if c == n {
        0
    } else if v[c] == 'e' || v[c] == 'E' {
        match read_exponent(v, c + 1) {
            Some(e) => e,
            None => {
                return None;
            },
        }
    } else {
        return None;
    };
    let point: i128 = (b - a) as i128 + exponent;
    Some((negative, digits, point))
}

/// The digits with the point after the first `p`, rounded, or `None` when that
/// does not fit.
fn round_digits(digits: &Vec<char>, p: i128) -> (r: Option<i64>)
    requires
        forall|k: int| 0 <= k < digits@.len() ==> is_ascii_digit(#[trigger] digits@[k]),
        p <= 0x8_0000_0000_0000_0000,
    ensures
        match r {
            Some(x) => x == rounded(digits@, p as int) && 0 <= x,
            None => rounded(digits@, p as int) > i64::MAX,
        },
{
    let limit: i128 = i64::MAX as i128;
    let m: usize = digits.len();
    if p < 0 {
        return Some(0);
    }
    if p >= m as i128 {
        assert(digits@.subrange(0, m as int) =~= digits@);
        let zeros: i128 = p - m as i128;
        match bounded_value(digits, 0, m, limit) {
            None => {
                proof {
                    let (x, q) = (value(digits@) as int, pow10(zeros as nat) as int);
                    lemma_pow10_positive(zeros as nat);
                    assert(x <= x * q) by (nonlinear_arith)
                        requires
                            0 <= x,
                            1 <= q,
                    ;
                }
                None
            },
            Some(x) => {
                if zeros > 100 && x > 0 {
                    proof {
                        lemma_pow10_huge(x as int, zeros as nat);
                    }
                    return None;
                }
                if x == 0 {
                    proof {
                        let q = pow10(zeros as nat) as int;
                        assert(0 * q == 0) by (nonlinear_arith);
                    }
                    return Some(0);
                }
                match shifted(x, zeros as u64, limit) {
                    Some(y) => Some(y as i64),
                    None => None,
                }
            },
        }
    } else {
        let k: usize = p as usize;
        assert(digits@.subrange(0, k as int) =~= digits@.take(k as int));
        assert(is_ascii_digit(digits@[k as int]));
        match bounded_value(digits, 0, k, limit) {
            None => None,
            Some(x) => {
                if digits[k] >= '5' {
                    if x < limit {
                        Some(x as i64 + 1)
                    } else {
                        None
                    }
                } else {
                    Some(x as i64)
                }
            },
        }
    }
}

proof fn lemma_pow10_huge(x: int, zeros: nat)
    requires
        x >= 1,
        zeros >= 100,
    ensures
        x * pow10(zeros) > i64::MAX,
{
    lemma_pow10_monotone(20, zeros);
    assert(pow10(20) == 100_000_000_000_000_000_000) by {
        reveal_with_fuel(pow10, 22);
    }
    let q = pow10(zeros) as int;
    assert(x * q >= q) by (nonlinear_arith)
        requires
            x >= 1,
            q >= 0,
    ;
}

/// Far out, it does not matter where exactly the point is.
proof fn lemma_far_point(digits: Seq<char>, a: int, b: int)
    requires
        stands_for(a, b, FAR as int),
        digits.len() <= usize::MAX,
    ensures
        rounded(digits, a + 6) == rounded(digits, b + 6) || (rounded(digits, a + 6) > i64::MAX
            && rounded(digits, b + 6) > i64::MAX),
{
    if a != b && a >= FAR {
        let (p, q) = ((a + 6 - digits.len()) as nat, (b + 6 - digits.len()) as nat);
        let x = value(digits) as int;
        if x == 0 {
            let (gp, gq) = (pow10(p) as int, pow10(q) as int);
            assert(0 * gp == 0 && 0 * gq == 0) by (nonlinear_arith);
        } else {
            lemma_pow10_huge(x, p);
            lemma_pow10_huge(x, q);
        }
    }
}

/// Whether a text is a decimal number.
pub fn is_decimal(text: &str) -> (b: bool)
    ensures
        b == (micros(text@) is Some),
{
    let v = chars_of(text);
    read_written(&v).is_some()
}

/// Reads a decimal number as millionths, to the nearest. `None` when the text
/// is not a decimal number, or when the number does not fit.
pub fn parse_micros(text: &str) -> (r: Option<i64>)
    ensures
        match r {
            Some(x) => micros(text@) == Some(x as int) && -i64::MAX <= x,
            None => micros(text@) is None || micros(text@).unwrap() > i64::MAX || micros(
                text@,
            ).unwrap() < -i64::MAX,
        },
{
    let v = chars_of(text);
    match read_written(&v) {
        None => None,
        Some((negative, digits, point)) => {
            proof {
                assert(digits.len() <= usize::MAX);
                lemma_far_point(digits@, point as int, written(v@).unwrap().point);
            }
            match round_digits(&digits, point + 6) {
                None => None,
                Some(x) => {
                    if negative {
                        Some(-x)
                    } else {
                        Some(x)
                    }
                },
            }
        },
    }
}

/// The text is `name`, in whatever case.
pub open spec fn is_named(s: Seq<char>, name: Seq<char>) -> bool {
    s.map_values(|c: char| ascii_lower(c)) == name
}

/// The text, past its sign, is one of the names of infinity.
pub open spec fn is_infinite_name(s: Seq<char>) -> bool {
    let t = s.skip(after_sign(s, 0));
    is_named(t, "inf"@) || is_named(t, "infinity"@)
}

/// What a text writes, in millionths: a decimal number, held to the range, or
/// one of the names for what has no digits.
pub open spec fn reading(s: Seq<char>) -> Option<int> {
    if is_infinite_name(s) {
        Some(
            if s[0] == '-' {
                -INFINITE
            } else {
                INFINITE as int
            },
        )
    } else if is_named(s.skip(after_sign(s, 0)), "nan"@) {
        Some(NOT_A_NUMBER as int)
    } else {
        match micros(s) {
            Some(v) => Some(held(v)),
            None => None,
        }
    }
}

/// The text past its sign, in lower case.
fn unsigned_lower(v: &Vec<char>) -> (r: String)
    ensures
        r@ == v@.skip(after_sign(v@, 0)).map_values(|c: char| ascii_lower(c)),
{
    let n: usize = v.len();
    let a: usize = if n > 0 && (v[0] == '+' || v[0] == '-') {
        1
    } else {
        0
    };
    let ghost t = v@.skip(after_sign(v@, 0));
    let ghost all = t.map_values(|c: char| ascii_lower(c));
    let mut r = String::new();
    let mut i: usize = a;
    assert(r@ =~= all.take(0));
    while i < n
        invariant
            a <= i <= n,
            n == v@.len(),
            a == after_sign(v@, 0),
            t == v@.skip(a as int),
            all == t.map_values(|c: char| ascii_lower(c)),
            r@ == all.take(i - a),
        decreases n - i,
    {
        r.push(char_ascii_lower(v[i]));
        i += 1;
        assert(r@ =~= all.take(i - a));
    }
    assert(all.take(i - a) =~= all);
    r
}

/// Reads a number in millionths: a decimal number to the nearest, held to the
/// range, or one of the names for what has no digits. `None` when the text is
/// neither.
pub fn read_number(text: &str) -> (r: Option<i64>)
    ensures
        match r {
            Some(x) => reading(text@) == Some(x as int),
            None => reading(text@) is None,
        },
{
    let v = chars_of(text);
    let t = unsigned_lower(&v);
    let negative = v.len() > 0 && v[0] == '-';
    proof {
        reveal_strlit("inf");
        reveal_strlit("infinity");
        assert(t@.len() <= v@.len());
    }
    if same(t.as_str(), "inf") || same(t.as_str(), "infinity") {
        return Some(
            if negative {
                -INFINITE
            } else {
                INFINITE
            },
        );
    }
    if same(t.as_str(), "nan") {
        return Some(NOT_A_NUMBER);
    }
    match parse_micros(text) {
        Some(x) => Some(x),
        None => {
            if !is_decimal(text) {
                None
            } else if negative {
                Some(-INFINITE)
            } else {
                Some(INFINITE)
            }
        },
    }
}

// ---------------------------------------------------------------------------
// Laws
// ---------------------------------------------------------------------------
proof fn lemma_digit(d: int)
    requires
        0 <= d < 10,
    ensures
        digit_value(digit(d)) == d,
        '0' <= digit(d) <= '9',
{
}

/// A number that is written in decimal reads back as itself, digit by digit,
/// and has no zero in front of it.
pub proof fn law_decimals_read_back(n: nat)
    ensures
        value(decimal(n)) == n,
        decimal(n).len() > 0,
        forall|k: int| 0 <= k < decimal(n).len() ==> '0' <= #[trigger] decimal(n)[k] <= '9',
        decimal(n).len() > 1 ==> decimal(n)[0] != '0',
    decreases n,
{
    if n < 10 {
        lemma_digit(n as int);
        let d = decimal(n);
        assert(d.drop_last() =~= Seq::<char>::empty());
        assert(value(d.drop_last()) == 0);
    } else {
        law_decimals_read_back(n / 10);
        lemma_digit((n % 10) as int);
        let d = decimal(n);
        assert(d.drop_last() =~= decimal(n / 10));
        if decimal(n / 10).len() == 1 {
            assert(n / 10 < 10) by {
                if n / 10 >= 10 {
                    assert(decimal(n / 10).len() == decimal(n / 10 / 10).len() + 1);
                    law_decimals_read_back(n / 10 / 10);
                }
            }
            lemma_digit((n / 10) as int);
            assert(digit_value(d[0]) == n / 10);
        }
    }
}

/// The last digits of a number, as many as are asked for, read back as what is
/// left of it when the rest is taken off.
pub proof fn law_low_digits_read_back(n: nat, w: nat)
    ensures
        low_digits(n, w).len() == w,
        value(low_digits(n, w)) == n % pow10(w),
        forall|k: int| 0 <= k < w ==> '0' <= #[trigger] low_digits(n, w)[k] <= '9',
    decreases w,
{
    lemma_pow10_positive(w);
    if w > 0 {
        let v = (w - 1) as nat;
        law_low_digits_read_back(n / 10, v);
        lemma_digit((n % 10) as int);
        lemma_pow10_positive(v);
        let d = low_digits(n, w);
        assert(d.drop_last() =~= low_digits(n / 10, v));
        let p = pow10(v) as int;
        assert(pow10(w) == 10 * p);
        let (q, r) = ((n / 10) as int / p, (n / 10) as int % p);
        vstd::arithmetic::div_mod::lemma_fundamental_div_mod((n / 10) as int, p);
        vstd::arithmetic::div_mod::lemma_mod_bound((n / 10) as int, p);
        let m = 10 * r + n % 10;
        assert(n == q * (10 * p) + m) by (nonlinear_arith)
            requires
                n == 10 * (n / 10) + n % 10,
                (n / 10) as int == p * q + r,
                m == 10 * r + n % 10,
        ;
        vstd::arithmetic::div_mod::lemma_fundamental_div_mod_converse(n as int, 10 * p, q, m);
    } else {
        assert(low_digits(n, 0) =~= Seq::<char>::empty());
        assert(pow10(0) == 1);
    }
}

/// A padded number reads back as itself, and is as wide as was asked for or as
/// wide as it needs to be.
pub proof fn law_padded_numbers_read_back(n: nat, w: nat)
    ensures
        value(padded(n, w)) == n,
        n < pow10(w) ==> padded(n, w).len() == w,
        forall|k: int| 0 <= k < padded(n, w).len() ==> '0' <= #[trigger] padded(n, w)[k] <= '9',
{
    if n < pow10(w) {
        law_low_digits_read_back(n, w);
        vstd::arithmetic::div_mod::lemma_small_mod(n, pow10(w));
    } else {
        law_decimals_read_back(n);
    }
}

/// Rounding goes to the nearest, and from halfway to the even one.
pub proof fn law_rounding_goes_to_the_nearest(n: nat, d: nat)
    requires
        d > 0,
    ensures
        2 * n - d <= 2 * d * round_div(n, d) <= 2 * n + d,
        2 * d * round_div(n, d) == 2 * n + d || 2 * d * round_div(n, d) == 2 * n - d
            ==> round_div(n, d) % 2 == 0,
{
    let (q, r) = ((n / d) as int, (n % d) as int);
    vstd::arithmetic::div_mod::lemma_fundamental_div_mod(n as int, d as int);
    vstd::arithmetic::div_mod::lemma_mod_bound(n as int, d as int);
    assert(2 * d * q == 2 * n - 2 * r) by (nonlinear_arith)
        requires
            n == d * q + r,
    ;
    assert(2 * d * (q + 1) == 2 * n - 2 * r + 2 * d) by (nonlinear_arith)
        requires
            n == d * q + r,
    ;
    let x = round_div(n, d) as int;
    assert(x == q || x == q + 1);
}

/// Away from the ends of the range, taking away and adding are what they are of
/// whole numbers.
pub proof fn law_plain_numbers_add_up(a: int, b: int)
    requires
        -2_000_000_000_000_000_000 <= a <= 2_000_000_000_000_000_000,
        -2_000_000_000_000_000_000 <= b <= 2_000_000_000_000_000_000,
    ensures
        minus(a, b) == a - b,
        plus(a, b) == a + b,
{
}

/// A number written to so many places is the nearest that can be written so:
/// whole digits, a point, and exactly that many digits after it.
pub proof fn law_fixed_digits_are_the_nearest(v: int, scale: nat, places: nat) -> (r: (
    Seq<char>,
    Seq<char>,
))
    requires
        0 < places <= scale,
    ensures
        fixed_magnitude(v, scale, places) == r.0.push('.') + r.1,
        r.0.len() > 0,
        r.1.len() == places,
        ({
            let m = value(r.0) * pow10(places) + value(r.1);
            let unit = pow10((scale - places) as nat) as int;
            let size = if v < 0 {
                -v
            } else {
                v
            };
            2 * size - unit <= 2 * unit * m <= 2 * size + unit
        }),
{
    let unit = pow10((scale - places) as nat);
    let p = pow10(places);
    lemma_pow10_positive((scale - places) as nat);
    lemma_pow10_positive(places);
    let m = round_div(magnitude(v), unit);
    law_rounding_goes_to_the_nearest(magnitude(v), unit);
    let (w, f) = (decimal(m / p), low_digits(m % p, places));
    law_decimals_read_back(m / p);
    law_low_digits_read_back(m % p, places);
    vstd::arithmetic::div_mod::lemma_mod_bound(m as int, p as int);
    vstd::arithmetic::div_mod::lemma_small_mod(m % p, p);
    vstd::arithmetic::div_mod::lemma_fundamental_div_mod(m as int, p as int);
    assert((m / p) * p == p * (m / p)) by (nonlinear_arith);
    (w, f)
}

/// The text is digits and nothing else.
pub open spec fn all_digits(s: Seq<char>) -> bool {
    forall|k: int| 0 <= k < s.len() ==> '0' <= #[trigger] s[k] <= '9'
}

proof fn lemma_digits_up_to(s: Seq<char>, i: int, b: int, to: int)
    requires
        0 <= i <= b <= to <= s.len(),
        forall|k: int| i <= k < b ==> '0' <= #[trigger] s[k] <= '9',
        b == to || !('0' <= s[b] <= '9'),
    ensures
        digits_end(s, i, to) == b,
    decreases b - i,
{
    if i < b {
        assert('0' <= s[i] <= '9');
        lemma_digits_up_to(s, i + 1, b, to);
    }
}

proof fn lemma_value_zeros(a: Seq<char>, n: nat)
    ensures
        value(a + Seq::new(n, |k: int| '0')) == value(a) * pow10(n),
    decreases n,
{
    let z = a + Seq::new(n, |k: int| '0');
    if n == 0 {
        assert(z =~= a);
        assert(pow10(0) == 1);
    } else {
        let m = (n - 1) as nat;
        lemma_value_zeros(a, m);
        assert(z.drop_last() =~= a + Seq::new(m, |k: int| '0'));
        assert(pow10(n) == 10 * pow10(m));
        assert(value(a) * pow10(n) == 10 * (value(a) * pow10(m))) by (nonlinear_arith)
            requires
                pow10(n) == 10 * pow10(m),
        ;
    }
}

proof fn lemma_value_joined(a: Seq<char>, b: Seq<char>)
    ensures
        value(a + b) == value(a) * pow10(b.len()) + value(b),
    decreases b.len(),
{
    if b.len() == 0 {
        assert(a + b =~= a);
        assert(pow10(0) == 1);
    } else {
        let c = b.drop_last();
        lemma_value_joined(a, c);
        assert((a + b).drop_last() =~= a + c);
        assert(pow10(b.len()) == 10 * pow10(c.len()));
        assert(value(a) * pow10(b.len()) == 10 * (value(a) * pow10(c.len()))) by (nonlinear_arith)
            requires
                pow10(b.len()) == 10 * pow10(c.len()),
        ;
    }
}

/// A plain number reads as what it writes, in millionths: a minus sign or none,
/// whole digits, and after a point up to six more, which count for tenths,
/// hundredths and so on.
pub proof fn law_plain_numbers_are_read(minus: bool, whole: Seq<char>, part: Seq<char>)
    requires
        whole.len() > 0,
        all_digits(whole),
        all_digits(part),
        part.len() <= 6,
    ensures
        ({
            let front = if minus {
                seq!['-'] + whole
            } else {
                whole
            };
            let size = value(whole) * 1_000_000 + value(part) * pow10((6 - part.len()) as nat);
            let v = if minus {
                -size
            } else {
                size as int
            };
            &&& reading(front + seq!['.'] + part) == Some(held(v))
            &&& part.len() == 0 ==> reading(front) == Some(held(v))
        }),
{
    let front = if minus {
        seq!['-'] + whole
    } else {
        whole
    };
    let a = if minus {
        1int
    } else {
        0
    };
    let s = front + seq!['.'] + part;
    let n = s.len() as int;
    let b = front.len() as int;
    let k = part.len();
    assert(front.subrange(a, b) =~= whole);
    assert(forall|j: int| a <= j < b ==> #[trigger] s[j] == whole[j - a]);
    assert(forall|j: int| a <= j < b ==> #[trigger] front[j] == whole[j - a]);
    assert(forall|j: int| b < j < n ==> #[trigger] s[j] == part[j - b - 1]);
    assert('0' <= whole[0] <= '9');
    assert(after_sign(s, 0) == a) by {
        assert(s[0] == front[0]);
    }
    assert(after_sign(front, 0) == a);
    lemma_digits_up_to(s, a, b, n);
    lemma_digits_up_to(s, b + 1, n, n);
    lemma_digits_up_to(front, a, b, b);
    assert(s.subrange(a, b) =~= whole);
    assert(s.subrange(b + 1, n) =~= part);
    let digits = whole + part;
    let p = whole.len() + 6;
    lemma_value_joined(whole, part);
    let unit = pow10((6 - k) as nat);
    assert(pow10(6) == 1_000_000) by {
        reveal_with_fuel(pow10, 7);
    }
    lemma_pow10_split(k, (6 - k) as nat);
    let size = value(whole) * 1_000_000 + value(part) * unit;
    assert((value(whole) * pow10(k) + value(part)) * unit == size) by (nonlinear_arith)
        requires
            pow10(k) * unit == 1_000_000,
            size == value(whole) * 1_000_000 + value(part) * unit,
    ;
    assert(rounded(digits, p as int) == size);
    assert(written(s) == Some(Written { negative: minus, digits, point: whole.len() as int }));
    lemma_no_name(s, a);
    if k == 0 {
        assert(digits =~= whole);
        assert(whole + Seq::<char>::empty() =~= whole);
        assert(written(front) == Some(
            Written { negative: minus, digits, point: whole.len() as int },
        ));
        lemma_no_name(front, a);
    }
}

proof fn lemma_pow10_split(a: nat, b: nat)
    ensures
        pow10(a) * pow10(b) == pow10(a + b),
    decreases a,
{
    if a == 0 {
        assert(pow10(0) == 1);
    } else {
        lemma_pow10_split((a - 1) as nat, b);
        let (x, y, z) = (pow10((a - 1) as nat), pow10(b), pow10((a - 1 + b) as nat));
        assert((10 * x) * y == 10 * (x * y)) by (nonlinear_arith);
    }
}

proof fn lemma_no_name(s: Seq<char>, a: int)
    requires
        0 <= a < s.len(),
        after_sign(s, 0) == a,
        '0' <= s[a] <= '9',
    ensures
        !is_infinite_name(s),
        !is_named(s.skip(a), "nan"@),
{
    reveal_strlit("inf");
    reveal_strlit("infinity");
    reveal_strlit("nan");
    let t = s.skip(a);
    let m = t.map_values(|c: char| ascii_lower(c));
    assert(m[0] == ascii_lower(t[0]));
    assert(m[0] == s[a]);
    if is_named(t, "inf"@) {
        assert(m[0] == "inf"@[0]);
    }
    if is_named(t, "infinity"@) {
        assert(m[0] == "infinity"@[0]);
    }
    if is_named(t, "nan"@) {
        assert(m[0] == "nan"@[0]);
    }
}

proof fn lemma_dropped_zeros(s: Seq<char>) -> (n: nat)
    ensures
        n <= s.len(),
        drop_back(s, |c: char| c == '0') == s.take(s.len() - n),
        s == s.take(s.len() - n) + Seq::new(n, |k: int| '0'),
    decreases s.len(),
{
    if s.len() > 0 && s.last() == '0' {
        let m = lemma_dropped_zeros(s.drop_last());
        let n = (m + 1) as nat;
        assert(s.take(s.len() - n) =~= s.drop_last().take(s.drop_last().len() - m));
        let front = s.drop_last();
        let cut = front.len() - m;
        let zeros = Seq::new(m, |k: int| '0');
        assert forall|k: int| cut <= k < s.len() implies s[k] == '0' by {
            if k < front.len() {
                assert(front[k] == (front.take(cut) + zeros)[k]);
                assert((front.take(cut) + zeros)[k] == zeros[k - cut]);
            }
        }
        assert(s =~= s.take(s.len() - n) + Seq::new(n, |k: int| '0'));
        n
    } else {
        assert(s =~= s.take(s.len() - 0));
        assert(s =~= s.take(s.len() - 0) + Seq::new(0, |k: int| '0'));
        0
    }
}

/// What is written in as few digits as it needs reads back as itself.
pub proof fn law_the_shortest_form_reads_back(v: int)
    requires
        i64::MIN + 1 < v < i64::MAX,
    ensures
        reading(shortest(v)) == Some(v),
{
    let minus = v < 0;
    let mag = magnitude(v);
    let (w, f) = (mag / 1_000_000, mag % 1_000_000);
    let whole = decimal(w);
    let six = low_digits(f, 6);
    law_decimals_read_back(w);
    law_low_digits_read_back(f, 6);
    assert(pow10(6) == 1_000_000) by {
        reveal_with_fuel(pow10, 7);
    }
    let n = lemma_dropped_zeros(six);
    let part = six.take(six.len() - n);
    assert(all_digits(part)) by {
        assert forall|k: int| 0 <= k < part.len() implies '0' <= #[trigger] part[k] <= '9' by {
            assert(part[k] == six[k]);
        }
    }
    lemma_value_zeros(part, n);
    assert(value(part) * pow10(n) == f);
    assert(value(whole) * 1_000_000 + f == mag);
    let front = if minus {
        seq!['-'] + whole
    } else {
        whole
    };
    assert(sign(v) + whole =~= front);
    if f == 0 {
        law_plain_numbers_are_read(minus, whole, Seq::empty());
        assert(value(Seq::<char>::empty()) == 0);
        assert(0 * pow10(6) == 0);
        assert(shortest(v) =~= front);
    } else {
        law_plain_numbers_are_read(minus, whole, part);
        assert(shortest(v) =~= front + seq!['.'] + part);
    }
}

/// Written with its sign, a number below zero is what it is without, and any
/// other has a plus in front.
pub proof fn law_a_signed_number_shows_its_sign(v: int, places: nat)
    requires
        v != NOT_A_NUMBER,
    ensures
        v < 0 ==> fixed_signed(v, places) == fixed(v, places),
        v < 0 ==> fixed_signed(v, places)[0] == '-',
        v >= 0 ==> fixed_signed(v, places) == seq!['+'] + fixed(v, places),
{
    if v >= 0 {
        assert(fixed_signed(v, places) =~= seq!['+'] + fixed(v, places));
    }
}

} // verus!
