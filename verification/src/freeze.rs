//! Freeze detection: where the picture stands still.
use vstd::prelude::*;

use crate::constants::{FREEZE_FPS, FREEZE_MIN_US, FREEZE_NOISE_DB};
use crate::mask::fill;
use crate::num::{
    decimal, fixed, low_digits, minus, plus, pow10, push_decimal, read_number, reading, show_fixed,
    subtract, sum,
};
use crate::text::{
    chars_of, debug_text, find_char, find_from, first_at, index_from, lemma_index_from, quote,
    text_of, trim, trimmed,
};

verus! {

/// The video filter that reports freezes of a region.
pub open spec fn freeze_filter_for(crop: Seq<char>) -> Seq<char> {
    "crop="@ + crop + ",fps="@ + decimal(FREEZE_FPS as nat) + ",freezedetect=n="@
        + FREEZE_NOISE_DB@ + ":d="@ + fixed(FREEZE_MIN_US as int, 1)
}

/// The video filter that reports freezes of the cropped region.
pub fn freeze_filter(crop: &str) -> (r: String)
    ensures
        r@ == freeze_filter_for(crop@),
{
    let mut r = String::new();
    r.append("crop=");
    r.append(crop);
    r.append(",fps=");
    push_decimal(&mut r, FREEZE_FPS as u64);
    r.append(",freezedetect=n=");
    r.append(FREEZE_NOISE_DB);
    r.append(":d=");
    r.append(show_fixed(FREEZE_MIN_US, 1).as_str());
    assert(r@ =~= freeze_filter_for(crop@));
    r
}

// ---------------------------------------------------------------------------
// Reading the report
// ---------------------------------------------------------------------------
/// Why a freeze report cannot be used. A report that cannot be read is a reason
/// to stop: an open freeze would be painted to the end of the file.
#[derive(Debug)]
pub enum FreezeError {
    BadStart { text: String },
    BadEnd { text: String },
    /// A freeze started while the one before it was still open.
    NeverEnded { at: i64, prev: i64 },
    /// A freeze ended that had already ended.
    AlreadyEnded { at: i64, done: i64 },
    /// A freeze ended before any had started.
    NeverStarted { at: i64 },
}

/// What a line of the report says.
#[verifier::ext_equal]
pub enum Event {
    Start { t: Option<int>, text: Seq<char> },
    End { t: Option<int>, text: Seq<char> },
    Other,
}

/// The text between the first and the second mark, if the mark occurs.
pub open spec fn after_mark(line: Seq<char>, mark: Seq<char>) -> Option<Seq<char>> {
    match first_at(line, mark, 0) {
        None => None,
        Some(i) => {
            let from = i + mark.len() as int;
            match first_at(line, mark, from) {
                None => Some(line.subrange(from, line.len() as int)),
                Some(j) => Some(line.subrange(from, j)),
            }
        },
    }
}

pub open spec fn event_of(line: Seq<char>) -> Event {
    match after_mark(line, "freeze_start: "@) {
        Some(v) => Event::Start { t: reading(trimmed(v)), text: v },
        None => match after_mark(line, "freeze_end: "@) {
            Some(v) => Event::End { t: reading(trimmed(v)), text: v },
            None => Event::Other,
        },
    }
}

/// An error as a mathematical value.
#[verifier::ext_equal]
pub enum ErrorView {
    BadStart { text: Seq<char> },
    BadEnd { text: Seq<char> },
    NeverEnded { at: i64, prev: i64 },
    AlreadyEnded { at: i64, done: i64 },
    NeverStarted { at: i64 },
}

impl View for FreezeError {
    type V = ErrorView;

    open spec fn view(&self) -> ErrorView {
        match self {
            FreezeError::BadStart { text } => ErrorView::BadStart { text: text@ },
            FreezeError::BadEnd { text } => ErrorView::BadEnd { text: text@ },
            FreezeError::NeverEnded { at, prev } => ErrorView::NeverEnded { at: *at, prev: *prev },
            FreezeError::AlreadyEnded { at, done } => ErrorView::AlreadyEnded {
                at: *at,
                done: *done,
            },
            FreezeError::NeverStarted { at } => ErrorView::NeverStarted { at: *at },
        }
    }
}

/// The freezes after one more event.
pub open spec fn after_event(freezes: Seq<(i64, Option<i64>)>, e: Event) -> Result<
    Seq<(i64, Option<i64>)>,
    ErrorView,
> {
    match e {
        Event::Other => Ok(freezes),
        Event::Start { t: None, text } => Err(ErrorView::BadStart { text }),
        Event::End { t: None, text } => Err(ErrorView::BadEnd { text }),
        Event::Start { t: Some(t), .. } => if freezes.len() > 0 && freezes.last().1 is None {
            Err(ErrorView::NeverEnded { at: t as i64, prev: freezes.last().0 })
        } else {
            Ok(freezes.push((t as i64, None)))
        },
        Event::End { t: Some(t), .. } => if freezes.len() == 0 {
            Err(ErrorView::NeverStarted { at: t as i64 })
        } else {
            match freezes.last().1 {
                None => Ok(freezes.drop_last().push((freezes.last().0, Some(t as i64)))),
                Some(done) => Err(ErrorView::AlreadyEnded { at: t as i64, done }),
            }
        },
    }
}

/// Reads the lines of a report from index `i` on, given the freezes so far.
pub open spec fn read_from(s: Seq<char>, i: int, freezes: Seq<(i64, Option<i64>)>) -> Result<
    Seq<(i64, Option<i64>)>,
    ErrorView,
>
    decreases s.len() - i,
{
    let nl = index_from(s, '\n', i);
    if i < 0 || i >= s.len() {
        Ok(freezes)
    } else {
        let end = if nl < s.len() && nl > i && s[nl - 1] == '\r' {
            nl - 1
        } else {
            nl
        };
        match after_event(freezes, event_of(s.subrange(i, end))) {
            Err(e) => Err(e),
            Ok(f) => if nl >= s.len() {
                Ok(f)
            } else {
                proof {
                    lemma_index_from(s, '\n', i);
                }
                read_from(s, nl + 1, f)
            },
        }
    }
}

/// Every freeze but the last has ended.
pub open spec fn only_last_open(freezes: Seq<(i64, Option<i64>)>) -> bool {
    forall|k: int| 0 <= k < freezes.len() - 1 ==> (#[trigger] freezes[k]).1 is Some
}

pub(crate) fn find_after_mark(line: &Vec<char>, mark: &str) -> (r: Option<String>)
    ensures
        match r {
            Some(v) => after_mark(line@, mark@) == Some(v@),
            None => after_mark(line@, mark@) is None,
        },
{
    let n: usize = line.len();
    match find_from(line, mark, 0) {
        None => None,
        Some(i) => {
            assert(i + mark@.len() <= n);
            let from: usize = i + mark.unicode_len();
            match find_from(line, mark, from) {
                None => Some(text_of(line, from, n)),
                Some(j) => Some(text_of(line, from, j)),
            }
        },
    }
}

fn read_time(v: &str) -> (t: Option<i64>)
    ensures
        match t {
            Some(x) => reading(trimmed(v@)) == Some(x as int),
            None => reading(trimmed(v@)) is None,
        },
{
    read_number(trim(v).as_str())
}

fn apply_line(line: &Vec<char>, freezes: &mut Vec<(i64, Option<i64>)>) -> (r: Result<
    (),
    FreezeError,
>)
    requires
        only_last_open(old(freezes)@),
    ensures
        match r {
            Ok(()) => after_event(old(freezes)@, event_of(line@)) == Ok::<_, ErrorView>(
                final(freezes)@,
            ) && only_last_open(final(freezes)@),
            Err(e) => after_event(old(freezes)@, event_of(line@)) == Err::<
                Seq<(i64, Option<i64>)>,
                _,
            >(e@),
        },
{
    let n: usize = freezes.len();
    let ghost before = freezes@;
    match find_after_mark(line, "freeze_start: ") {
        Some(v) => {
            match read_time(v.as_str()) {
                None => Err(FreezeError::BadStart { text: v }),
                Some(t) => {
                    if n > 0 && freezes[n - 1].1.is_none() {
                        return Err(FreezeError::NeverEnded { at: t, prev: freezes[n - 1].0 });
                    }
                    freezes.push((t, None));
                    assert forall|k: int| 0 <= k < freezes@.len() - 1 implies (
                    #[trigger] freezes@[k]).1 is Some by {
                        assert(freezes@[k] == before[k]);
                    }
                    Ok(())
                },
            }
        },
        None => match find_after_mark(line, "freeze_end: ") {
            Some(v) => {
                match read_time(v.as_str()) {
                    None => Err(FreezeError::BadEnd { text: v }),
                    Some(t) => {
                        if n == 0 {
                            return Err(FreezeError::NeverStarted { at: t });
                        }
                        let (start, end) = freezes[n - 1];
                        match end {
                            Some(done) => Err(FreezeError::AlreadyEnded { at: t, done }),
                            None => {
                                freezes.set(n - 1, (start, Some(t)));
                                assert(freezes@ =~= before.drop_last().push((start, Some(t))));
                                assert forall|k: int| 0 <= k < freezes@.len() - 1 implies (
                                #[trigger] freezes@[k]).1 is Some by {
                                    assert(freezes@[k] == before[k]);
                                }
                                Ok(())
                            },
                        }
                    },
                }
            },
            None => Ok(()),
        },
    }
}

/// Reads a freeze report into start and end times. Only the last freeze may be
/// left open: that is a video which ends while frozen. Every malformed line is
/// an error.
pub fn read_freezes(report: &str) -> (r: Result<Vec<(i64, Option<i64>)>, FreezeError>)
    ensures
        match r {
            Ok(f) => read_from(report@, 0, Seq::empty()) == Ok::<_, ErrorView>(f@)
                && only_last_open(f@),
            Err(e) => read_from(report@, 0, Seq::empty()) == Err::<Seq<(i64, Option<i64>)>, _>(e@),
        },
{
    let v = chars_of(report);
    let n: usize = v.len();
    let mut freezes: Vec<(i64, Option<i64>)> = Vec::new();
    let mut i: usize = 0;
    assert(freezes@ =~= Seq::<(i64, Option<i64>)>::empty());
    while i < n
        invariant
            i <= n,
            n == v@.len(),
            v@ == report@,
            only_last_open(freezes@),
            read_from(report@, i as int, freezes@) == read_from(report@, 0, Seq::empty()),
        decreases n - i,
    {
        let nl: usize = find_char(&v, '\n', i);
        let end: usize = if nl < n && nl > i && v[nl - 1] == '\r' {
            nl - 1
        } else {
            nl
        };
        let line = chars_of(text_of(&v, i, end).as_str());
        assert(line@ == report@.subrange(i as int, end as int));
        match apply_line(&line, &mut freezes) {
            Ok(()) => {},
            Err(e) => {
                return Err(e);
            },
        }
        if nl >= n {
            i = n;
        } else {
            i = nl + 1;
        }
    }
    Ok(freezes)
}

// ---------------------------------------------------------------------------
// Painting
// ---------------------------------------------------------------------------
/// The grid slice that holds a moment; before the start counts as the first.
pub open spec fn slice_at(t: int) -> int {
    if t < 0 {
        0
    } else {
        t / 20_000
    }
}

pub open spec fn up_to(a: int, b: int) -> int {
    if a < b {
        a
    } else {
        b
    }
}

/// When a freeze ends; one left open lasts to the end of the video.
pub open spec fn freeze_end(f: (i64, Option<i64>), duration: int) -> int {
    match f.1 {
        Some(e) => e as int,
        None => duration,
    }
}

/// The slices that a freeze covers.
pub open spec fn freeze_span(f: (i64, Option<i64>), grid_len: int, duration: int) -> (int, int) {
    (
        up_to(slice_at(f.0 as int), grid_len - 1),
        up_to(slice_at(freeze_end(f, duration)), grid_len),
    )
}

/// Some freeze covers slice `i`.
pub open spec fn is_frozen(
    freezes: Seq<(i64, Option<i64>)>,
    grid_len: int,
    duration: int,
    i: int,
) -> bool {
    exists|k: int|
        0 <= k < freezes.len() && freeze_span(#[trigger] freezes[k], grid_len, duration).0 <= i
            < freeze_span(freezes[k], grid_len, duration).1
}

/// A freeze can be painted: there is a grid, and it does not end before it
/// starts.
pub open spec fn fits_grid(f: (i64, Option<i64>), grid_len: int, duration: int) -> bool {
    grid_len > 0 && freeze_span(f, grid_len, duration).0 <= freeze_span(f, grid_len, duration).1
}

/// All the freezes can be painted.
pub open spec fn paintable(
    freezes: Seq<(i64, Option<i64>)>,
    grid_len: int,
    duration: int,
) -> bool {
    forall|k: int| 0 <= k < freezes.len() ==> fits_grid(#[trigger] freezes[k], grid_len, duration)
}

fn slice_within(t: i64, n: usize) -> (i: usize)
    ensures
        i == up_to(slice_at(t as int), n as int),
{
    if t < 0 {
        0
    } else {
        let s: u64 = (t / 20_000) as u64;
        if s < n as u64 {
            s as usize
        } else {
            n
        }
    }
}

/// Tests whether the freezes can be painted.
pub fn can_paint(freezes: &Vec<(i64, Option<i64>)>, grid_len: usize, duration_us: i64) -> (b: bool)
    ensures
        b == paintable(freezes@, grid_len as int, duration_us as int),
{
    let mut k: usize = 0;
    while k < freezes.len()
        invariant
            k <= freezes@.len(),
            forall|j: int|
                0 <= j < k ==> fits_grid(
                    #[trigger] freezes@[j],
                    grid_len as int,
                    duration_us as int,
                ),
        decreases freezes@.len() - k,
    {
        let (start, end) = freezes[k];
        assert(freezes@[k as int] == (start, end));
        if grid_len == 0 {
            assert(!fits_grid(freezes@[k as int], grid_len as int, duration_us as int));
            return false;
        }
        let e: i64 = match end {
            Some(e) => e,
            None => duration_us,
        };
        if slice_within(start, grid_len - 1) > slice_within(e, grid_len) {
            assert(!fits_grid(freezes@[k as int], grid_len as int, duration_us as int));
            return false;
        }
        k += 1;
    }
    true
}

/// One flag per slice: whether the picture stands still.
pub fn paint_freezes(
    freezes: &Vec<(i64, Option<i64>)>,
    grid_len: usize,
    duration_us: i64,
) -> (frozen: Vec<bool>)
    requires
        paintable(freezes@, grid_len as int, duration_us as int),
    ensures
        frozen@ == Seq::new(
            grid_len as nat,
            |i: int| is_frozen(freezes@, grid_len as int, duration_us as int, i),
        ),
{
    let ghost g = grid_len as int;
    let ghost dur = duration_us as int;
    let mut frozen: Vec<bool> = Vec::new();
    let mut i: usize = 0;
    while i < grid_len
        invariant
            i <= grid_len,
            frozen@.len() == i,
            forall|q: int| 0 <= q < i ==> !(#[trigger] frozen@[q]),
        decreases grid_len - i,
    {
        frozen.push(false);
        i += 1;
    }
    let mut k: usize = 0;
    while k < freezes.len()
        invariant
            k <= freezes@.len(),
            g == grid_len,
            dur == duration_us,
            paintable(freezes@, g, dur),
            frozen@.len() == grid_len,
            forall|q: int|
                0 <= q < g ==> #[trigger] frozen@[q] == is_frozen(
                    freezes@.take(k as int),
                    g,
                    dur,
                    q,
                ),
        decreases freezes@.len() - k,
    {
        let (start, end) = freezes[k];
        assert(freezes@[k as int] == (start, end));
        assert(fits_grid(freezes@[k as int], g, dur));
        let e: i64 = match end {
            Some(e) => e,
            None => duration_us,
        };
        let i0: usize = slice_within(start, grid_len - 1);
        let i1: usize = slice_within(e, grid_len);
        let ghost before = frozen@;
        fill(&mut frozen, i0, i1, true);
        proof {
            let t = freezes@.take(k as int);
            let t1 = freezes@.take(k + 1);
            assert forall|q: int| 0 <= q < g implies #[trigger] frozen@[q] == is_frozen(
                t1,
                g,
                dur,
                q,
            ) by {
                assert(before[q] == is_frozen(t, g, dur, q));
                if is_frozen(t, g, dur, q) {
                    let j = choose|j: int|
                        0 <= j < t.len() && freeze_span(#[trigger] t[j], g, dur).0 <= q
                            < freeze_span(t[j], g, dur).1;
                    assert(t1[j] == t[j]);
                }
                if i0 <= q < i1 {
                    assert(freeze_span(t1[k as int], g, dur).0 <= q);
                }
                if is_frozen(t1, g, dur, q) {
                    let j = choose|j: int|
                        0 <= j < t1.len() && freeze_span(#[trigger] t1[j], g, dur).0 <= q
                            < freeze_span(t1[j], g, dur).1;
                    if j < k {
                        assert(t[j] == t1[j]);
                    }
                }
            }
        }
        k += 1;
    }
    assert(freezes@.take(k as int) =~= freezes@);
    assert(frozen@ =~= Seq::new(grid_len as nat, |i: int| is_frozen(freezes@, g, dur, i)));
    frozen
}

/// How long the picture stands still in all.
pub open spec fn total_frozen(freezes: Seq<(i64, Option<i64>)>, duration: int) -> int
    decreases freezes.len(),
{
    if freezes.len() == 0 {
        0
    } else {
        plus(
            total_frozen(freezes.drop_last(), duration),
            minus(freeze_end(freezes.last(), duration), freezes.last().0 as int),
        )
    }
}

/// How long the picture stands still in all.
pub fn frozen_time(freezes: &Vec<(i64, Option<i64>)>, duration_us: i64) -> (t: i64)
    ensures
        t == total_frozen(freezes@, duration_us as int),
{
    let mut t: i64 = 0;
    let mut k: usize = 0;
    while k < freezes.len()
        invariant
            k <= freezes@.len(),
            t == total_frozen(freezes@.take(k as int), duration_us as int),
        decreases freezes@.len() - k,
    {
        assert(freezes@.take(k + 1).drop_last() =~= freezes@.take(k as int));
        let (start, end): (i64, Option<i64>) = freezes[k];
        let end: i64 = match end {
            Some(e) => e,
            None => duration_us,
        };
        t = sum(t, subtract(end, start));
        k += 1;
    }
    assert(freezes@.take(k as int) =~= freezes@);
    t
}

/// A freeze that is still open when the video ends covers everything after its
/// start.
pub proof fn law_open_freeze_lasts(
    freezes: Seq<(i64, Option<i64>)>,
    grid_len: int,
    duration: int,
    i: int,
)
    requires
        freezes.len() > 0,
        freezes.last().1 is None,
        slice_at(freezes.last().0 as int) <= i < grid_len,
        grid_len <= slice_at(duration),
    ensures
        is_frozen(freezes, grid_len, duration, i),
{
    let k = freezes.len() - 1;
    assert(freeze_span(freezes[k], grid_len, duration).0 <= i < freeze_span(
        freezes[k],
        grid_len,
        duration,
    ).1);
}

// ---------------------------------------------------------------------------
// Messages
// ---------------------------------------------------------------------------
/// What is wrong with a time that cannot be read.
pub open spec fn fault_of(text: Seq<char>) -> Seq<char> {
    if trimmed(text).len() == 0 {
        "cannot parse float from empty string"@
    } else {
        "invalid float literal"@
    }
}

/// The complaint about a time that cannot be read. `mark` says which of the two
/// it was, and `quoted` is the text as it is shown.
pub open spec fn unreadable(mark: Seq<char>, quoted: Seq<char>, text: Seq<char>) -> Seq<char> {
    "freezedetect printed an unreadable "@ + mark + seq![' '] + quoted + ": "@ + fault_of(text)
}

/// Complains about a time that cannot be read.
pub fn unreadable_message(mark: &str, quoted: &str, text: &str) -> (r: String)
    ensures
        r@ == unreadable(mark@, quoted@, text@),
{
    let t = trim(text);
    let fault = if chars_of(t.as_str()).len() == 0 {
        "cannot parse float from empty string"
    } else {
        "invalid float literal"
    };
    let mut r = "freezedetect printed an unreadable ".to_string();
    r.append(mark);
    r.push(' ');
    r.append(quoted);
    r.append(": ");
    r.append(fault);
    assert(r@ =~= unreadable(mark@, quoted@, text@));
    r
}

impl FreezeError {
    pub open spec fn spec_message(&self) -> Seq<char> {
        match self {
            FreezeError::BadStart { text } => unreadable(
                "freeze_start"@,
                debug_text(text@),
                text@,
            ),
            FreezeError::BadEnd { text } => unreadable("freeze_end"@, debug_text(text@), text@),
            FreezeError::NeverEnded { at, prev } => "freezedetect started a freeze at "@ + fixed(
                *at as int,
                2,
            ) + "s while the one at "@ + fixed(*prev as int, 2) + "s never ended"@,
            FreezeError::AlreadyEnded { at, done } => "freezedetect ended a freeze at "@ + fixed(
                *at as int,
                2,
            ) + "s that already ended at "@ + fixed(*done as int, 2) + "s"@,
            FreezeError::NeverStarted { at } => "freezedetect ended a freeze at "@ + fixed(
                *at as int,
                2,
            ) + "s that never started"@,
        }
    }

    /// The error in words.
    pub fn message(&self) -> (r: String)
        ensures
            r@ == self.spec_message(),
    {
        let mut r = String::new();
        match self {
            FreezeError::BadStart { text } => {
                let quoted = quote(text.as_str());
                r = unreadable_message("freeze_start", quoted.as_str(), text.as_str());
            },
            FreezeError::BadEnd { text } => {
                let quoted = quote(text.as_str());
                r = unreadable_message("freeze_end", quoted.as_str(), text.as_str());
            },
            FreezeError::NeverEnded { at, prev } => {
                r.append("freezedetect started a freeze at ");
                r.append(show_fixed(*at, 2).as_str());
                r.append("s while the one at ");
                r.append(show_fixed(*prev, 2).as_str());
                r.append("s never ended");
            },
            FreezeError::AlreadyEnded { at, done } => {
                r.append("freezedetect ended a freeze at ");
                r.append(show_fixed(*at, 2).as_str());
                r.append("s that already ended at ");
                r.append(show_fixed(*done, 2).as_str());
                r.append("s");
            },
            FreezeError::NeverStarted { at } => {
                r.append("freezedetect ended a freeze at ");
                r.append(show_fixed(*at, 2).as_str());
                r.append("s that never started");
            },
        }
        assert(r@ =~= self.spec_message());
        r
    }
}

// ---------------------------------------------------------------------------
// Laws
// ---------------------------------------------------------------------------
/// A slice of 20 ms is still exactly when some freeze starts before the slice
/// ends and ends no earlier than it does; one that is left open ends with the
/// video. So a slice during which the picture comes back to life is not still.
pub proof fn law_a_still_slice_lies_in_a_freeze(
    freezes: Seq<(i64, Option<i64>)>,
    grid_len: int,
    duration: int,
    i: int,
)
    requires
        0 <= i < grid_len,
        forall|k: int|
            0 <= k < freezes.len() ==> (#[trigger] freezes[k]).0 < 20_000 * grid_len,
    ensures
        is_frozen(freezes, grid_len, duration, i) <==> exists|k: int|
            0 <= k < freezes.len() && (#[trigger] freezes[k]).0 < 20_000 * (i + 1) <= (
            match freezes[k].1 {
                Some(e) => e as int,
                None => duration,
            }),
{
    if is_frozen(freezes, grid_len, duration, i) {
        let k = choose|k: int|
            0 <= k < freezes.len() && freeze_span(#[trigger] freezes[k], grid_len, duration).0 <= i
                < freeze_span(freezes[k], grid_len, duration).1;
        assert(freezes[k].0 < 20_000 * (i + 1));
    }
    if exists|k: int|
        0 <= k < freezes.len() && (#[trigger] freezes[k]).0 < 20_000 * (i + 1) <= (
        match freezes[k].1 {
            Some(e) => e as int,
            None => duration,
        }) {
        let k = choose|k: int|
            0 <= k < freezes.len() && (#[trigger] freezes[k]).0 < 20_000 * (i + 1) <= (
            match freezes[k].1 {
                Some(e) => e as int,
                None => duration,
            });
        assert(freeze_span(freezes[k], grid_len, duration).0 <= i < freeze_span(
            freezes[k],
            grid_len,
            duration,
        ).1);
    }
}

/// A freeze is open until it ends, and only one is open at a time. A start
/// opens one at its time, unless one is open or the time cannot be read; an end
/// closes the open one at its time, unless none is open or the time cannot be
/// read; each of those is refused, and any other line changes nothing.
pub proof fn law_freezes_open_and_close_in_turn(freezes: Seq<(i64, Option<i64>)>, e: Event)
    requires
        match e {
            Event::Start { t: Some(t), .. } => i64::MIN <= t <= i64::MAX,
            Event::End { t: Some(t), .. } => i64::MIN <= t <= i64::MAX,
            _ => true,
        },
    ensures
        ({
            let open = freezes.len() > 0 && freezes[freezes.len() - 1].1 is None;
            let n = freezes.len() as int;
            match e {
                Event::Other => after_event(freezes, e) == Ok::<_, ErrorView>(freezes),
                Event::Start { t, .. } => {
                    &&& after_event(freezes, e) is Ok <==> t is Some && !open
                    &&& after_event(freezes, e) matches Ok(f) ==> f.len() == n + 1 && f.take(n)
                        == freezes && f[n].0 == t.unwrap() && f[n].1 is None
                    &&& after_event(freezes, e) matches Err(x) ==> (x is BadStart <==> t is None)
                        && (x is NeverEnded <==> t is Some)
                },
                Event::End { t, .. } => {
                    &&& after_event(freezes, e) is Ok <==> t is Some && open
                    &&& after_event(freezes, e) matches Ok(f) ==> f.len() == n && f.take(n - 1)
                        == freezes.take(n - 1) && f[n - 1].0 == freezes[n - 1].0 && f[n - 1].1
                        == Some(t.unwrap() as i64)
                    &&& after_event(freezes, e) matches Err(x) ==> (x is BadEnd <==> t is None) && (
                    x is NeverStarted <==> t is Some && n == 0) && (x is AlreadyEnded <==> t is Some
                        && n > 0)
                },
            }
        }),
{
    let n = freezes.len() as int;
    match after_event(freezes, e) {
        Ok(f) => {
            if e is Start {
                assert(f.take(n) =~= freezes);
            } else if e is End {
                assert(f.take(n - 1) =~= freezes.take(n - 1));
            }
        },
        Err(_) => {},
    }
}

/// The region is looked at five times a second, and is still when it stays
/// under -58 dB of change for two seconds.
pub proof fn law_the_filter_looks_for_two_still_seconds(crop: Seq<char>)
    ensures
        freeze_filter_for(crop) == "crop="@ + crop + ",fps=5,freezedetect=n=-58dB:d=2.0"@,
{
    reveal_strlit(",fps=");
    reveal_strlit(",freezedetect=n=");
    reveal_strlit("-58dB");
    reveal_strlit(":d=");
    reveal_strlit(",fps=5,freezedetect=n=-58dB:d=2.0");
    reveal_with_fuel(decimal, 3);
    reveal_with_fuel(pow10, 7);
    reveal_with_fuel(low_digits, 2);
    assert(decimal(5) =~= seq!['5']);
    assert(decimal(2) =~= seq!['2']);
    assert(pow10(5) == 100_000 && pow10(1) == 10);
    assert(crate::num::round_div(2_000_000, 100_000) == 20);
    assert(low_digits(0, 1) =~= seq!['0']);
    assert(crate::num::fixed_magnitude(2_000_000, 6, 1) =~= seq!['2', '.', '0']);
    assert(fixed(2_000_000, 1) =~= seq!['2', '.', '0']);
    assert(freeze_filter_for(crop) =~= "crop="@ + crop + ",fps=5,freezedetect=n=-58dB:d=2.0"@);
}

/// A line is a start where it says so, else an end where it says so, else
/// nothing. What follows the mark, up to another of its kind, is the time.
pub proof fn law_a_line_is_what_it_says(line: Seq<char>)
    ensures
        event_of(line) is Start <==> first_at(line, "freeze_start: "@, 0) is Some,
        event_of(line) is End <==> first_at(line, "freeze_start: "@, 0) is None && first_at(
            line,
            "freeze_end: "@,
            0,
        ) is Some,
        event_of(line) matches Event::Start { t, text } ==> after_mark(line, "freeze_start: "@)
            == Some(text) && t == reading(trimmed(text)),
        event_of(line) matches Event::End { t, text } ==> after_mark(line, "freeze_end: "@) == Some(
            text,
        ) && t == reading(trimmed(text)),
{
}

/// What follows a mark that occurs once is the rest of the text.
pub proof fn law_the_rest_follows_the_mark(line: Seq<char>, mark: Seq<char>, i: int)
    requires
        first_at(line, mark, 0) == Some(i),
        first_at(line, mark, i + mark.len()) is None,
    ensures
        after_mark(line, mark) == Some(line.skip(i + mark.len())),
{
    crate::text::law_the_first_occurrence_is_found(line, mark, 0);
    assert(line.skip(i + mark.len()) =~= line.subrange(i + mark.len(), line.len() as int));
}

/// The times for which the picture stands still add up; one that is left open
/// counts to the end of the video.
pub proof fn law_still_times_add_up(
    freezes: Seq<(i64, Option<i64>)>,
    next: (i64, Option<i64>),
    duration: int,
)
    requires
        -1_000_000_000_000_000_000 <= total_frozen(freezes, duration) <= 1_000_000_000_000_000_000,
        -500_000_000_000_000_000 <= next.0 <= 500_000_000_000_000_000,
        -500_000_000_000_000_000 <= duration <= 500_000_000_000_000_000,
        next.1 matches Some(e) ==> -500_000_000_000_000_000 <= e <= 500_000_000_000_000_000,
    ensures
        total_frozen(Seq::empty(), duration) == 0,
        total_frozen(freezes.push(next), duration) == total_frozen(freezes, duration) + (
        match next.1 {
            Some(e) => e as int,
            None => duration,
        }) - next.0,
{
    assert(freezes.push(next).drop_last() =~= freezes);
}

} // verus!
