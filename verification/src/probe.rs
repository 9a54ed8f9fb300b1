//! What the source file says of itself.
use vstd::prelude::*;

use crate::num::{
    decimal, finite, is_finite, low_digits, magnitude, push_decimal, push_low_digits, read_number,
    reading, round_div, value, NOT_A_NUMBER,
};
use crate::render::round_ratio;
use crate::text::{chars_of, find_char, index_from, lemma_index_from, same, text_of};

verus! {

/// The parts of a file's description that are used.
#[derive(Debug)]
pub struct Probe {
    pub format: Format,
    pub streams: Vec<Stream>,
}

#[derive(Debug)]
pub struct Format {
    pub duration: String,
}

#[derive(Debug)]
pub struct Stream {
    pub codec_type: String,
    pub width: Option<u32>,
    pub height: Option<u32>,
    pub r_frame_rate: Option<String>,
    pub sample_rate: Option<String>,
}

// ---------------------------------------------------------------------------
// Frame rates
// ---------------------------------------------------------------------------
/// A frame rate as a fraction.
#[derive(Clone, Copy, Debug, PartialEq, Eq, Structural)]
pub struct FrameRate {
    pub num: i64,
    pub den: i64,
}

/// The two sides of the first slash.
pub open spec fn fraction(s: Seq<char>) -> Option<(Seq<char>, Seq<char>)> {
    let i = index_from(s, '/', 0);
    if i < s.len() {
        Some((s.take(i), s.skip(i + 1)))
    } else {
        None
    }
}

/// The fraction that a text writes, unless it divides by nothing.
pub open spec fn written_rate(s: Seq<char>) -> Option<(int, int)> {
    match fraction(s) {
        Some((a, b)) => match (reading(a), reading(b)) {
            (Some(n), Some(d)) => if d == 0 {
                None
            } else {
                Some((n, d))
            },
            _ => None,
        },
        None => None,
    }
}

/// `60000/1001` is 59.94 frames a second. `None` when the text is not a
/// readable fraction.
pub fn parse_fps(s: &str) -> (r: Option<FrameRate>)
    ensures
        match r {
            Some(f) => written_rate(s@) == Some((f.num as int, f.den as int)),
            None => written_rate(s@) is None,
        },
{
    let v = chars_of(s);
    let n: usize = v.len();
    proof {
        lemma_index_from(v@, '/', 0);
    }
    let i: usize = find_char(&v, '/', 0);
    if i >= n {
        return None;
    }
    let a = text_of(&v, 0, i);
    let b = text_of(&v, i + 1, n);
    assert(a@ =~= s@.take(i as int));
    assert(b@ =~= s@.skip(i + 1));
    match (read_number(a.as_str()), read_number(b.as_str())) {
        (Some(num), Some(den)) => if den == 0 {
            None
        } else {
            Some(FrameRate { num, den })
        },
        _ => None,
    }
}

impl FrameRate {
    /// Neither side is a number, or both are infinite: there is no rate.
    pub open spec fn is_undefined(self) -> bool {
        ||| self.num == NOT_A_NUMBER || self.den == NOT_A_NUMBER
        ||| !is_finite(self.num as int) && !is_finite(self.den as int)
    }

    /// The rate to three decimal places.
    pub open spec fn spec_text(self) -> Seq<char> {
        let m = if is_finite(self.den as int) {
            round_div(1000 * magnitude(self.num as int), magnitude(self.den as int))
        } else {
            0
        };
        let sign = if (self.num < 0) != (self.den < 0) {
            seq!['-']
        } else {
            Seq::empty()
        };
        if self.is_undefined() {
            "NaN"@
        } else if !is_finite(self.num as int) {
            sign + "inf"@
        } else {
            sign + decimal(m / 1000).push('.') + low_digits(m % 1000, 3)
        }
    }

    pub fn text(&self) -> (r: String)
        requires
            self.den != 0,
        ensures
            r@ == self.spec_text(),
    {
        let mut r = String::new();
        if self.num == NOT_A_NUMBER || self.den == NOT_A_NUMBER || (!finite(self.num) && !finite(
            self.den,
        )) {
            return "NaN".to_string();
        }
        if (self.num < 0) != (self.den < 0) {
            r.push('-');
        }
        if !finite(self.num) {
            r.append("inf");
            assert(r@ =~= self.spec_text());
            return r;
        }
        if !finite(self.den) {
            push_decimal(&mut r, 0);
            r.push('.');
            push_low_digits(&mut r, 0, 3);
            assert(r@ =~= self.spec_text());
            return r;
        }
        let n: u128 = if self.num < 0 {
            (-(self.num as i128)) as u128
        } else {
            self.num as u128
        };
        let d: u128 = if self.den < 0 {
            (-(self.den as i128)) as u128
        } else {
            self.den as u128
        };
        let m: u128 = round_ratio(1000 * n, d);
        assert(m <= 1000 * n + 1) by {
            let (x, y) = (1000 * n as int, d as int);
            assert(x / y <= x) by (nonlinear_arith)
                requires
                    x >= 0,
                    y >= 1,
            ;
        }
        push_decimal(&mut r, (m / 1000) as u64);
        r.push('.');
        push_low_digits(&mut r, (m % 1000) as u64, 3);
        assert(r@ =~= self.spec_text());
        r
    }
}

// ---------------------------------------------------------------------------
// Streams
// ---------------------------------------------------------------------------
/// The first stream of a kind.
pub open spec fn is_first_stream(streams: Seq<Stream>, kind: Seq<char>, at: Option<usize>) -> bool {
    match at {
        Some(i) => i < streams.len() && streams[i as int].codec_type@ == kind && forall|j: int|
            0 <= j < i ==> (#[trigger] streams[j]).codec_type@ != kind,
        None => forall|j: int|
            0 <= j < streams.len() ==> (#[trigger] streams[j]).codec_type@ != kind,
    }
}

/// Finds the first stream of a kind.
pub fn first_stream(probe: &Probe, kind: &str) -> (at: Option<usize>)
    ensures
        is_first_stream(probe.streams@, kind@, at),
{
    let mut k: usize = 0;
    while k < probe.streams.len()
        invariant
            k <= probe.streams@.len(),
            forall|j: int| 0 <= j < k ==> (#[trigger] probe.streams@[j]).codec_type@ != kind@,
        decreases probe.streams@.len() - k,
    {
        if same(probe.streams[k].codec_type.as_str(), kind) {
            return Some(k);
        }
        k += 1;
    }
    None
}

/// What the edit needs to know of the source.
#[derive(Clone, Copy, Debug, PartialEq, Eq, Structural)]
pub struct Source {
    pub duration_us: i64,
    pub fps: FrameRate,
    pub width: u32,
    pub height: u32,
}

/// What a description lacks.
#[derive(Clone, Copy, Debug, PartialEq, Eq, Structural)]
pub enum ProbeError {
    NoVideo,
    BadDuration,
    BadFrameRate,
    NoWidth,
    NoHeight,
}

/// The frame rate of a stream, if it is given and readable.
pub open spec fn rate_of(s: Stream) -> Option<(int, int)> {
    match s.r_frame_rate {
        Some(t) => written_rate(t@),
        None => None,
    }
}

/// What is lacking first, of a description whose first video stream is `v`.
pub open spec fn lacking(probe: Probe, v: Stream) -> Option<ProbeError> {
    if reading(probe.format.duration@) is None {
        Some(ProbeError::BadDuration)
    } else if rate_of(v) is None {
        Some(ProbeError::BadFrameRate)
    } else if v.width is None {
        Some(ProbeError::NoWidth)
    } else if v.height is None {
        Some(ProbeError::NoHeight)
    } else {
        None
    }
}

/// Reads what the edit needs out of a description.
pub fn read_source(probe: &Probe) -> (r: Result<Source, ProbeError>)
    ensures
        exists|at: Option<usize>| #[trigger]
            is_first_stream(probe.streams@, "video"@, at) && match at {
                None => r == Err::<Source, _>(ProbeError::NoVideo),
                Some(i) => {
                    let v = probe.streams@[i as int];
                    match lacking(*probe, v) {
                        Some(e) => r == Err::<Source, _>(e),
                        None => r matches Ok(s) && {
                            &&& reading(probe.format.duration@) == Some(s.duration_us as int)
                            &&& rate_of(v) == Some((s.fps.num as int, s.fps.den as int))
                            &&& v.width == Some(s.width)
                            &&& v.height == Some(s.height)
                        },
                    }
                },
            },
{
    let at = first_stream(probe, "video");
    assert(is_first_stream(probe.streams@, "video"@, at));
    let i: usize = match at {
        Some(i) => i,
        None => return Err(ProbeError::NoVideo),
    };
    let v = &probe.streams[i];
    let duration_us: i64 = match read_number(probe.format.duration.as_str()) {
        Some(d) => d,
        None => return Err(ProbeError::BadDuration),
    };
    let fps = match &v.r_frame_rate {
        Some(t) => match parse_fps(t.as_str()) {
            Some(f) => f,
            None => return Err(ProbeError::BadFrameRate),
        },
        None => return Err(ProbeError::BadFrameRate),
    };
    let width: u32 = match v.width {
        Some(w) => w,
        None => return Err(ProbeError::NoWidth),
    };
    let height: u32 = match v.height {
        Some(h) => h,
        None => return Err(ProbeError::NoHeight),
    };
    Ok(Source { duration_us, fps, width, height })
}

// ---------------------------------------------------------------------------
// Laws
// ---------------------------------------------------------------------------
/// A fraction is what stands before the first slash and what stands after it.
pub proof fn law_a_fraction_is_split_at_its_first_slash(a: Seq<char>, b: Seq<char>)
    requires
        !a.contains('/'),
    ensures
        fraction(a + seq!['/'] + b) == Some((a, b)),
{
    let s = a + seq!['/'] + b;
    lemma_index_from(s, '/', 0);
    let i = index_from(s, '/', 0);
    assert(s[a.len() as int] == '/');
    lemma_first_slash(s, 0, a.len() as int);
    assert(s.take(i) =~= a);
    assert(s.skip(i + 1) =~= b);
}

proof fn lemma_first_slash(s: Seq<char>, i: int, at: int)
    requires
        0 <= i <= at < s.len(),
        s[at] == '/',
        forall|k: int| i <= k < at ==> s[k] != '/',
    ensures
        index_from(s, '/', i) == at,
    decreases at - i,
{
    if i < at {
        assert(s[i] != '/');
        lemma_first_slash(s, i + 1, at);
    }
}

/// A text without a slash is no fraction, and neither is one that divides by
/// nothing.
pub proof fn law_nothing_divides_by_nothing(s: Seq<char>)
    ensures
        written_rate(s) matches Some((n, d)) ==> d != 0,
        !s.contains('/') ==> written_rate(s) is None,
{
    lemma_found_slash(s, 0);
}

proof fn lemma_found_slash(s: Seq<char>, i: int)
    requires
        0 <= i,
    ensures
        index_from(s, '/', i) < s.len() ==> s.contains('/'),
    decreases s.len() - i,
{
    if i < s.len() {
        if s[i] == '/' {
            assert(s.contains('/'));
        } else {
            lemma_found_slash(s, i + 1);
        }
    }
}

/// A rate is shown to the nearest thousandth of a frame a second.
pub proof fn law_rates_are_shown_to_the_thousandth(f: FrameRate) -> (r: (Seq<char>, Seq<char>))
    requires
        0 <= f.num < i64::MAX,
        0 < f.den < i64::MAX,
    ensures
        f.spec_text() == r.0.push('.') + r.1,
        r.1.len() == 3,
        ({
            let m = value(r.0) * 1000 + value(r.1);
            2000 * f.num - f.den <= 2 * f.den * m <= 2000 * f.num + f.den
        }),
{
    let (n, d) = (f.num as nat, f.den as nat);
    let m = round_div(1000 * n, d);
    crate::num::law_rounding_goes_to_the_nearest(1000 * n, d);
    crate::num::law_decimals_read_back(m / 1000);
    crate::num::law_low_digits_read_back(m % 1000, 3);
    assert(crate::num::pow10(3) == 1000) by {
        reveal_with_fuel(crate::num::pow10, 4);
    }
    let (w, x) = (decimal(m / 1000), low_digits(m % 1000, 3));
    assert(f.spec_text() =~= w.push('.') + x);
    (w, x)
}

/// Where there is a stream of a kind, one is found, and none stands before it.
pub proof fn law_no_earlier_stream_is_passed_over(
    streams: Seq<Stream>,
    kind: Seq<char>,
    at: Option<usize>,
    i: int,
)
    requires
        is_first_stream(streams, kind, at),
        0 <= i < streams.len(),
    ensures
        streams[i].codec_type@ == kind ==> (at matches Some(k) && k <= i),
        at == Some(i as usize) && i <= usize::MAX ==> streams[i].codec_type@ == kind,
{
}

/// Something is lacking exactly where the length, the frame rate, the width or
/// the height cannot be had, and the first of them in that order is named.
pub proof fn law_the_first_thing_lacking_is_named(probe: Probe, v: Stream)
    ensures
        lacking(probe, v) is None <==> (reading(probe.format.duration@) is Some && rate_of(
            v,
        ) is Some && v.width is Some && v.height is Some),
        reading(probe.format.duration@) is None ==> lacking(probe, v) == Some(
            ProbeError::BadDuration,
        ),
        lacking(probe, v) == Some(ProbeError::BadFrameRate) ==> rate_of(v) is None,
        lacking(probe, v) == Some(ProbeError::NoWidth) ==> v.width is None && rate_of(v) is Some,
        lacking(probe, v) == Some(ProbeError::NoHeight) ==> v.height is None && v.width is Some
            && rate_of(v) is Some,
        v.r_frame_rate is None ==> rate_of(v) is None,
{
}

} // verus!
