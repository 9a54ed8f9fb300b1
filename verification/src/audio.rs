//! Loudness reports, and the filters that ask for them.
use vstd::prelude::*;

use crate::num::{read_number, reading, shortest, show_shortest};
use crate::text::{chars_of, join, joined, text_of, views};

verus! {

/// The report of a loudness measurement, in which every number is text.
#[derive(Debug)]
pub struct Loudnorm {
    pub input_i: String,
    pub input_tp: String,
    pub input_lra: String,
    pub input_thresh: String,
    pub target_offset: String,
}

/// All five numbers of a report, in millionths. A second pass needs every one
/// of them.
#[derive(Clone, Copy, Debug, PartialEq, Eq, Structural)]
pub struct LoudnormStats {
    pub input_i: i64,
    pub input_tp: i64,
    pub input_lra: i64,
    pub input_thresh: i64,
    pub target_offset: i64,
}

/// What is known of the source's sound. Levels are in millionths, the duration
/// in microseconds.
#[derive(Clone, Copy, Debug, PartialEq, Eq, Structural)]
pub struct Analysis {
    pub gain_db: i64,
    pub input_i: i64,
    pub input_tp: i64,
    pub sample_rate: u32,
    pub samples: usize,
    pub grid_len: usize,
    pub src_duration_us: i64,
}

// ---------------------------------------------------------------------------
// Finding the report
// ---------------------------------------------------------------------------
/// Where `c` first stands at or after index `i`.
pub open spec fn first_of(s: Seq<char>, c: char, i: int) -> Option<int>
    decreases s.len() - i,
{
    if i >= s.len() {
        None
    } else if s[i] == c {
        Some(i)
    } else {
        first_of(s, c, i + 1)
    }
}

/// Where `c` last stands.
pub open spec fn last_of(s: Seq<char>, c: char) -> Option<int>
    decreases s.len(),
{
    if s.len() == 0 {
        None
    } else if s.last() == c {
        Some(s.len() - 1)
    } else {
        last_of(s.drop_last(), c)
    }
}

/// The text from the first opening brace to the last closing one.
pub open spec fn braced(s: Seq<char>) -> Option<Seq<char>> {
    match (first_of(s, '{', 0), last_of(s, '}')) {
        (Some(a), Some(b)) => Some(s.subrange(a, b + 1)),
        _ => None,
    }
}

/// Where there are braces of both kinds, the last closing one stands after the
/// first opening one, or directly before it.
pub open spec fn braces_in_order(s: Seq<char>) -> bool {
    match (first_of(s, '{', 0), last_of(s, '}')) {
        (Some(a), Some(b)) => a <= b + 1,
        _ => true,
    }
}

/// Cuts the report out of what the encoder printed. `None` when there is none.
pub fn report_span(printed: &str) -> (r: Option<String>)
    requires
        braces_in_order(printed@),
    ensures
        match r {
            Some(t) => braced(printed@) == Some(t@),
            None => braced(printed@) is None,
        },
{
    let v = chars_of(printed);
    let n: usize = v.len();
    let mut a: usize = 0;
    while a < n && v[a] != '{'
        invariant
            a <= n,
            n == v@.len(),
            first_of(v@, '{', 0) == first_of(v@, '{', a as int),
        decreases n - a,
    {
        a += 1;
    }
    if a == n {
        return None;
    }
    let mut b: usize = n;
    assert(v@.take(n as int) =~= v@);
    while b > 0 && v[b - 1] != '}'
        invariant
            b <= n,
            n == v@.len(),
            last_of(v@, '}') == last_of(v@.take(b as int), '}'),
        decreases b,
    {
        assert(v@.take(b as int).drop_last() =~= v@.take(b - 1));
        b -= 1;
    }
    if b == 0 {
        return None;
    }
    assert(v@.take(b as int).last() == v@[b - 1]);
    Some(text_of(&v, a, b))
}

// ---------------------------------------------------------------------------
// Reading the report
// ---------------------------------------------------------------------------
/// A field of the report that does not hold a number.
#[derive(Debug)]
pub struct BadNumber {
    pub name: &'static str,
    pub value: String,
}

/// The text holds a number. The loudness of silence is minus infinity, which is
/// one.
pub open spec fn readable(s: Seq<char>) -> bool {
    reading(s) is Some
}

/// Reads one field of the report.
pub fn number(value: &str, name: &'static str) -> (r: Result<i64, BadNumber>)
    ensures
        match r {
            Ok(v) => reading(value@) == Some(v as int),
            Err(e) => !readable(value@) && e.name@ == name@ && e.value@ == value@,
        },
{
    match read_number(value) {
        Some(v) => Ok(v),
        None => Err(BadNumber { name, value: value.to_string() }),
    }
}

/// The loudness and the true peak of a report. The first field that does not
/// hold a number is the error.
pub fn loudness(l: &Loudnorm) -> (r: Result<(i64, i64), BadNumber>)
    ensures
        match r {
            Ok(v) => reading(l.input_i@) == Some(v.0 as int) && reading(l.input_tp@) == Some(
                v.1 as int,
            ),
            Err(e) => if !readable(l.input_i@) {
                e.name@ == "input_i"@ && e.value@ == l.input_i@
            } else {
                !readable(l.input_tp@) && e.name@ == "input_tp"@ && e.value@ == l.input_tp@
            },
        },
        r is Ok <==> readable(l.input_i@) && readable(l.input_tp@),
{
    let input_i: i64 = match number(l.input_i.as_str(), "input_i") {
        Ok(v) => v,
        Err(e) => return Err(e),
    };
    let input_tp: i64 = match number(l.input_tp.as_str(), "input_tp") {
        Ok(v) => v,
        Err(e) => return Err(e),
    };
    Ok((input_i, input_tp))
}

/// The fields of a report by name, in the order in which they are read.
pub open spec fn fields(l: Loudnorm) -> Seq<(Seq<char>, Seq<char>)> {
    seq![
        ("input_i"@, l.input_i@),
        ("input_tp"@, l.input_tp@),
        ("input_lra"@, l.input_lra@),
        ("input_thresh"@, l.input_thresh@),
        ("target_offset"@, l.target_offset@),
    ]
}

/// Field `k` is the first that does not hold a number.
pub open spec fn first_bad(l: Loudnorm, k: int) -> bool {
    &&& 0 <= k < fields(l).len()
    &&& !readable(fields(l)[k].1)
    &&& forall|j: int| 0 <= j < k ==> readable((#[trigger] fields(l)[j]).1)
}

/// All five numbers of a report.
pub fn stats(l: &Loudnorm) -> (r: Result<LoudnormStats, BadNumber>)
    ensures
        match r {
            Ok(s) => {
                &&& reading(l.input_i@) == Some(s.input_i as int)
                &&& reading(l.input_tp@) == Some(s.input_tp as int)
                &&& reading(l.input_lra@) == Some(s.input_lra as int)
                &&& reading(l.input_thresh@) == Some(s.input_thresh as int)
                &&& reading(l.target_offset@) == Some(s.target_offset as int)
            },
            Err(e) => exists|k: int| #[trigger]
                first_bad(*l, k) && (e.name@, e.value@) == fields(*l)[k],
        },
        r is Ok <==> forall|k: int|
            0 <= k < fields(*l).len() ==> readable((#[trigger] fields(*l)[k]).1),
{
    let ghost fs = fields(*l);
    let input_i: i64 = match number(l.input_i.as_str(), "input_i") {
        Ok(v) => v,
        Err(e) => {
            assert(first_bad(*l, 0));
            return Err(e);
        },
    };
    assert(readable(fs[0].1));
    let input_tp: i64 = match number(l.input_tp.as_str(), "input_tp") {
        Ok(v) => v,
        Err(e) => {
            assert(first_bad(*l, 1));
            return Err(e);
        },
    };
    assert(readable(fs[1].1));
    let input_lra: i64 = match number(l.input_lra.as_str(), "input_lra") {
        Ok(v) => v,
        Err(e) => {
            assert(first_bad(*l, 2));
            return Err(e);
        },
    };
    assert(readable(fs[2].1));
    let input_thresh: i64 = match number(l.input_thresh.as_str(), "input_thresh") {
        Ok(v) => v,
        Err(e) => {
            assert(first_bad(*l, 3));
            return Err(e);
        },
    };
    assert(readable(fs[3].1));
    let target_offset: i64 = match number(l.target_offset.as_str(), "target_offset") {
        Ok(v) => v,
        Err(e) => {
            assert(first_bad(*l, 4));
            return Err(e);
        },
    };
    assert(readable(fs[4].1));
    Ok(LoudnormStats { input_i, input_tp, input_lra, input_thresh, target_offset })
}

// ---------------------------------------------------------------------------
// Filters
// ---------------------------------------------------------------------------
/// The filter that measures loudness, after those the sound goes through
/// first.
pub fn measure_filter(prefilter: &Vec<String>, target_lufs: i64) -> (r: String)
    ensures
        r@ == joined(
            views(prefilter@).push(
                "loudnorm=I="@ + shortest(target_lufs as int) + ":print_format=json"@,
            ),
            ","@,
        ),
{
    let mut last = "loudnorm=I=".to_string();
    last.append(show_shortest(target_lufs).as_str());
    last.append(":print_format=json");
    after(prefilter, last)
}

/// The filter of a first pass: it measures against all three targets.
pub fn first_pass_filter(
    prefilter: &Vec<String>,
    target_i: i64,
    target_tp: i64,
    target_lra: i64,
) -> (r: String)
    ensures
        r@ == joined(
            views(prefilter@).push(
                "loudnorm=I="@ + shortest(target_i as int) + ":TP="@ + shortest(target_tp as int)
                    + ":LRA="@ + shortest(target_lra as int) + ":print_format=json"@,
            ),
            ","@,
        ),
{
    let mut last = "loudnorm=I=".to_string();
    last.append(show_shortest(target_i).as_str());
    last.append(":TP=");
    last.append(show_shortest(target_tp).as_str());
    last.append(":LRA=");
    last.append(show_shortest(target_lra).as_str());
    last.append(":print_format=json");
    after(prefilter, last)
}

fn after(prefilter: &Vec<String>, last: String) -> (r: String)
    ensures
        r@ == joined(views(prefilter@).push(last@), ","@),
{
    let mut parts: Vec<String> = Vec::new();
    let mut k: usize = 0;
    while k < prefilter.len()
        invariant
            k <= prefilter@.len(),
            views(parts@) == views(prefilter@).take(k as int),
        decreases prefilter@.len() - k,
    {
        let ghost before = views(parts@);
        parts.push(prefilter[k].clone());
        assert(views(parts@) =~= before.push(prefilter@[k as int]@));
        assert(views(parts@) =~= views(prefilter@).take(k + 1));
        k += 1;
    }
    assert(views(prefilter@).take(k as int) =~= views(prefilter@));
    let ghost before = views(parts@);
    parts.push(last);
    assert(views(parts@) =~= before.push(last@));
    join(&parts, ",")
}

/// The filter that applies a gain.
pub fn volume_filter(gain_db: i64) -> (r: String)
    ensures
        r@ == "volume="@ + shortest(gain_db as int) + "dB"@,
{
    let mut r = "volume=".to_string();
    r.append(show_shortest(gain_db).as_str());
    r.append("dB");
    r
}

// ---------------------------------------------------------------------------
// Laws
// ---------------------------------------------------------------------------
proof fn lemma_first_of(s: Seq<char>, c: char, i: int)
    requires
        0 <= i,
    ensures
        match first_of(s, c, i) {
            Some(a) => i <= a < s.len() && s[a] == c && forall|k: int| i <= k < a ==> s[k] != c,
            None => forall|k: int| i <= k < s.len() ==> s[k] != c,
        },
    decreases s.len() - i,
{
    if i < s.len() && s[i] != c {
        lemma_first_of(s, c, i + 1);
    }
}

proof fn lemma_last_of(s: Seq<char>, c: char)
    ensures
        match last_of(s, c) {
            Some(b) => 0 <= b < s.len() && s[b] == c && forall|k: int|
                b < k < s.len() ==> s[k] != c,
            None => forall|k: int| 0 <= k < s.len() ==> s[k] != c,
        },
    decreases s.len(),
{
    if s.len() > 0 && s.last() != c {
        let front = s.drop_last();
        lemma_last_of(front, c);
        match last_of(front, c) {
            Some(b) => {
                assert(front[b] == s[b]);
                assert forall|k: int| b < k < s.len() implies s[k] != c by {
                    if k < front.len() {
                        assert(front[k] == s[k]);
                    }
                }
            },
            None => {
                assert forall|k: int| 0 <= k < s.len() implies s[k] != c by {
                    if k < front.len() {
                        assert(front[k] == s[k]);
                    }
                }
            },
        }
    }
}

/// The report is everything between the outermost braces and the braces
/// themselves: `a` is where the first opening one stands and `b` where the last
/// closing one does.
pub proof fn law_the_report_lies_between_the_outermost_braces(s: Seq<char>, a: int, b: int)
    requires
        0 <= a < b < s.len(),
        s[a] == '{',
        s[b] == '}',
        forall|k: int| 0 <= k < a ==> s[k] != '{',
        forall|k: int| b < k < s.len() ==> s[k] != '}',
    ensures
        braced(s) == Some(s.subrange(a, b + 1)),
{
    lemma_first_of(s, '{', 0);
    lemma_last_of(s, '}');
}

/// There is no report where either kind of brace is missing.
pub proof fn law_no_report_without_braces(s: Seq<char>)
    ensures
        braced(s) is None <==> !s.contains('{') || !s.contains('}'),
{
    lemma_first_of(s, '{', 0);
    lemma_last_of(s, '}');
    if s.contains('{') {
        let k = choose|k: int| 0 <= k < s.len() && s[k] == '{';
        assert(s[k] == '{');
    }
    if s.contains('}') {
        let k = choose|k: int| 0 <= k < s.len() && s[k] == '}';
        assert(s[k] == '}');
    }
    if braced(s) is Some {
        let a = first_of(s, '{', 0).unwrap();
        let b = last_of(s, '}').unwrap();
        assert(s[a] == '{' && s[b] == '}');
    }
}

} // verus!
