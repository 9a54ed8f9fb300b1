//! The per-genre "nothing is happening" mask: the one thing that differs from
//! genre to genre.
//!
//! A slice is dead when nobody speaks and nothing is happening. A genre with no
//! such signal must therefore give a mask that is always true, which leaves the
//! decision to silence alone. All false would mean that nothing is ever dead.
use vstd::prelude::*;

use crate::constants::TIME_MAX;
use crate::crop::{frame_views, gap};
use crate::freeze::{is_frozen, paint_freezes, paintable};
use crate::mask::fill;
use crate::text::same;

verus! {

/// Screen recordings: the picture is frozen.
#[derive(Clone, Copy, Debug)]
pub struct Freeze;

/// Slide lectures: a slide is a still image, so what carries the lecture is the
/// slide change. Something is happening only for a short while after one.
#[derive(Clone, Copy, Debug)]
pub struct Slides;

/// Talking head to camera: there is no signal.
#[derive(Clone, Copy, Debug)]
pub struct None_;

/// Which signal to use.
#[derive(Clone, Copy, Debug)]
pub enum Signal {
    Freeze(Freeze),
    Slides(Slides),
    Silence(None_),
}

impl Signal {
    pub open spec fn spec_name(self) -> Seq<char> {
        match self {
            Signal::Freeze(_) => "freeze"@,
            Signal::Slides(_) => "slides"@,
            Signal::Silence(_) => "none"@,
        }
    }

    pub fn name(&self) -> (s: &'static str)
        ensures
            s@ == self.spec_name(),
    {
        match self {
            Signal::Freeze(f) => f.name(),
            Signal::Slides(s) => s.name(),
            Signal::Silence(n) => n.name(),
        }
    }
}

/// Picks the signal by name; `None` for a name that is not one.
pub fn for_name(name: &str) -> (s: Option<Signal>)
    ensures
        match s {
            Some(x) => name@ == x.spec_name(),
            None => name@ != "freeze"@ && name@ != "slides"@ && name@ != "none"@,
        },
{
    if same(name, "freeze") {
        Some(Signal::Freeze(Freeze))
    } else if same(name, "slides") {
        Some(Signal::Slides(Slides))
    } else if same(name, "none") {
        Some(Signal::Silence(None_))
    } else {
        None
    }
}

/// The message for a name that is not a signal.
pub fn unknown_signal(name: &str) -> (r: String)
    ensures
        r@ == "unknown --signal "@ + name@ + " (expected freeze, slides or none)"@,
{
    let mut r = String::new();
    r.append("unknown --signal ");
    r.append(name);
    r.append(" (expected freeze, slides or none)");
    assert(r@ =~= "unknown --signal "@ + name@ + " (expected freeze, slides or none)"@);
    r
}

/// The signal when none is asked for: freezes where a content region was found,
/// silence alone where there is none.
pub fn default_signal(content_found: bool) -> (s: Signal)
    ensures
        s.spec_name() == (if content_found {
            "freeze"@
        } else {
            "none"@
        }),
{
    if content_found {
        Signal::Freeze(Freeze)
    } else {
        Signal::Silence(None_)
    }
}

impl Freeze {
    pub fn name(&self) -> (s: &'static str)
        ensures
            s@ == "freeze"@,
    {
        "freeze"
    }

    /// True where the picture is frozen.
    pub fn mask(
        &self,
        freezes: &Vec<(i64, Option<i64>)>,
        grid_len: usize,
        duration_us: i64,
    ) -> (m: Vec<bool>)
        requires
            paintable(freezes@, grid_len as int, duration_us as int),
        ensures
            m@ == Seq::new(
                grid_len as nat,
                |i: int| is_frozen(freezes@, grid_len as int, duration_us as int, i),
            ),
    {
        paint_freezes(freezes, grid_len, duration_us)
    }
}

impl None_ {
    pub fn name(&self) -> (s: &'static str)
        ensures
            s@ == "none"@,
    {
        "none"
    }

    /// True everywhere.
    pub fn mask(&self, grid_len: usize) -> (m: Vec<bool>)
        ensures
            m@ == Seq::new(grid_len as nat, |i: int| true),
    {
        let m = all_true(grid_len);
        assert(m@ =~= Seq::new(grid_len as nat, |i: int| true));
        m
    }
}

fn all_true(n: usize) -> (m: Vec<bool>)
    ensures
        m@.len() == n,
        forall|i: int| 0 <= i < n ==> #[trigger] m@[i],
{
    let mut m: Vec<bool> = Vec::new();
    let mut i: usize = 0;
    while i < n
        invariant
            i <= n,
            m@.len() == i,
            forall|k: int| 0 <= k < i ==> #[trigger] m@[k],
        decreases n - i,
    {
        m.push(true);
        i += 1;
    }
    m
}

// ---------------------------------------------------------------------------
// Slides
// ---------------------------------------------------------------------------
/// Mean difference between two frames from which on the slide has changed. High
/// on purpose: a change of slide fills the frame.
pub const SLIDE_CHANGE_DIFF: usize = 6;

/// For how many slices a slide change counts as something happening: 2 s.
pub const SLIDE_ACTIVE_SLICES: usize = 100;

/// How much the first `n` cells differ.
pub open spec fn frame_gap(a: Seq<u8>, b: Seq<u8>, n: int) -> int
    decreases n,
{
    if n <= 0 {
        0
    } else {
        frame_gap(a, b, n - 1) + gap(a[n - 1] as int, b[n - 1] as int)
    }
}

pub open spec fn shorter(a: Seq<u8>, b: Seq<u8>) -> int {
    if a.len() < b.len() {
        a.len() as int
    } else {
        b.len() as int
    }
}

/// The slide changes at frame `i`.
pub open spec fn slide_changes(frames: Seq<Seq<u8>>, i: int) -> bool {
    let n = shorter(frames[i - 1], frames[i]);
    n > 0 && frame_gap(frames[i - 1], frames[i], n) >= SLIDE_CHANGE_DIFF * n
}

/// The grid slice at which sampled frame `i` stands.
pub open spec fn frame_slice(i: int, duration: int) -> int {
    i * duration / 4_000_000
}

/// A slide change keeps slice `s` busy.
pub open spec fn slide_busy(frames: Seq<Seq<u8>>, duration: int, i: int, s: int) -> bool {
    &&& 1 <= i < frames.len()
    &&& slide_changes(frames, i)
    &&& frame_slice(i, duration) <= s < frame_slice(i, duration) + SLIDE_ACTIVE_SLICES
}

/// How many of the first `n` frames bring a new slide.
pub open spec fn count_changes(frames: Seq<Seq<u8>>, n: int) -> int
    decreases n,
{
    if n <= 1 {
        0
    } else {
        count_changes(frames, n - 1) + (if slide_changes(frames, n - 1) {
            1int
        } else {
            0
        })
    }
}

fn new_slide(a: &Vec<u8>, b: &Vec<u8>) -> (r: bool)
    ensures
        r == ({
            let n = shorter(a@, b@);
            n > 0 && frame_gap(a@, b@, n) >= SLIDE_CHANGE_DIFF * n
        }),
{
    let n: usize = if a.len() < b.len() {
        a.len()
    } else {
        b.len()
    };
    let mut sum: u128 = 0;
    let mut k: usize = 0;
    while k < n
        invariant
            k <= n == shorter(a@, b@),
            sum <= 255 * k,
            sum == frame_gap(a@, b@, k as int),
        decreases n - k,
    {
        let d: u8 = if a[k] < b[k] {
            b[k] - a[k]
        } else {
            a[k] - b[k]
        };
        sum = sum + d as u128;
        k += 1;
    }
    n > 0 && sum >= SLIDE_CHANGE_DIFF as u128 * n as u128
}

impl Slides {
    pub fn name(&self) -> (s: &'static str)
        ensures
            s@ == "slides"@,
    {
        "slides"
    }

    /// True everywhere but for a short while after each slide change; also how
    /// many changes there are. `None` with fewer than two frames.
    pub fn mask(&self, frames: &Vec<Vec<u8>>, grid_len: usize, duration_us: i64) -> (r: Option<
        (Vec<bool>, usize),
    >)
        requires
            0 <= duration_us <= TIME_MAX,
        ensures
            match r {
                None => frames@.len() < 2,
                Some(m) => {
                    &&& frames@.len() >= 2
                    &&& m.0@ == Seq::new(
                        grid_len as nat,
                        |s: int|
                            !exists|i: int| #[trigger]
                                slide_busy(frame_views(frames@), duration_us as int, i, s),
                    )
                    &&& m.1 == count_changes(frame_views(frames@), frames@.len() as int)
                },
            },
    {
        let ghost fv = frame_views(frames@);
        let ghost dur = duration_us as int;
        let n: usize = frames.len();
        if n < 2 {
            return None;
        }
        let mut mask = all_true(grid_len);
        let mut changes: usize = 0;
        let mut i: usize = 1;
        proof {
            assert forall|s: int| 0 <= s < grid_len implies (#[trigger] mask@[s] <==> !exists|
                j: int,
            |
                j < 1 && #[trigger] slide_busy(fv, dur, j, s)) by {}
        }
        while i < n
            invariant
                1 <= i <= n,
                n == frames@.len(),
                fv == frame_views(frames@),
                dur == duration_us,
                0 <= dur <= TIME_MAX,
                changes <= i - 1,
                changes == count_changes(fv, i as int),
                mask@.len() == grid_len,
                forall|s: int|
                    0 <= s < grid_len ==> (#[trigger] mask@[s] <==> !exists|j: int|
                        j < i && #[trigger] slide_busy(fv, dur, j, s)),
            decreases n - i,
        {
            assert(fv[i - 1] == frames@[i - 1]@ && fv[i as int] == frames@[i as int]@);
            let ghost before = mask@;
            if new_slide(&frames[i - 1], &frames[i]) {
                changes += 1;
                let ghost (gi, gd) = (i as int, dur);
                assert(0 <= gi * gd <= 0x1_0000_0000_0000_0000 * 1_000_000_000_000_000_000)
                    by (nonlinear_arith)
                    requires
                        0 <= gi <= 0x1_0000_0000_0000_0000,
                        0 <= gd <= 1_000_000_000_000_000_000,
                ;
                let at: i128 = i as i128 * duration_us as i128 / 4_000_000;
                assert(at == frame_slice(i as int, dur));
                let lo: usize = if at < grid_len as i128 {
                    at as usize
                } else {
                    grid_len
                };
                let hi: usize = if at + 100 < grid_len as i128 {
                    (at + 100) as usize
                } else {
                    grid_len
                };
                fill(&mut mask, lo, hi, false);
            }
            proof {
                assert forall|s: int| 0 <= s < grid_len implies (#[trigger] mask@[s] <==> !exists|
                    j: int,
                |
                    j < i + 1 && #[trigger] slide_busy(fv, dur, j, s)) by {
                    assert(before[s] <==> !exists|j: int|
                        j < i && #[trigger] slide_busy(fv, dur, j, s));
                    if exists|j: int| j < i + 1 && #[trigger] slide_busy(fv, dur, j, s) {
                        let j = choose|j: int| j < i + 1 && #[trigger] slide_busy(fv, dur, j, s);
                        if j < i {
                            assert(!before[s]);
                        }
                    }
                    if slide_busy(fv, dur, i as int, s) {
                        assert(!mask@[s]);
                    }
                    if !before[s] {
                        let j = choose|j: int| j < i && #[trigger] slide_busy(fv, dur, j, s);
                        assert(j < i + 1);
                    }
                }
            }
            i += 1;
        }
        assert(mask@ =~= Seq::new(
            grid_len as nat,
            |s: int| !exists|i: int| #[trigger] slide_busy(fv, dur, i, s),
        )) by {
            assert forall|s: int| 0 <= s < grid_len implies mask@[s] == !exists|i: int| #[trigger]
                slide_busy(fv, dur, i, s) by {
                if exists|i: int| #[trigger] slide_busy(fv, dur, i, s) {
                    let j = choose|j: int| #[trigger] slide_busy(fv, dur, j, s);
                    assert(j < n);
                }
            }
        }
        Some((mask, changes))
    }
}

// ---------------------------------------------------------------------------
// Laws
// ---------------------------------------------------------------------------
/// How far apart two frames are, cell by cell.
pub open spec fn cell_gaps(a: Seq<u8>, b: Seq<u8>, n: int) -> Seq<int> {
    Seq::new(
        n as nat,
        |i: int|
            if a[i] <= b[i] {
                b[i] - a[i]
            } else {
                a[i] - b[i]
            },
    )
}

proof fn lemma_frame_gap(a: Seq<u8>, b: Seq<u8>, n: int)
    requires
        0 <= n,
    ensures
        frame_gap(a, b, n) == cell_gaps(a, b, n).fold_left(0int, |sum: int, d: int| sum + d),
    decreases n,
{
    let f = |sum: int, d: int| sum + d;
    let s = cell_gaps(a, b, n);
    if n > 0 {
        lemma_frame_gap(a, b, n - 1);
        assert(s.drop_last() =~= cell_gaps(a, b, n - 1));
        assert(s.fold_left(0int, f) == f(s.drop_last().fold_left(0int, f), s.last()));
    }
}

/// The slide has changed when two neighbouring frames are six levels or more
/// apart on average, over the cells that both have.
pub proof fn law_a_new_slide_is_six_levels_away(frames: Seq<Seq<u8>>, i: int, n: int)
    requires
        1 <= i < frames.len(),
        n <= frames[i - 1].len(),
        n <= frames[i].len(),
        n == frames[i - 1].len() || n == frames[i].len(),
    ensures
        slide_changes(frames, i) <==> n > 0 && cell_gaps(frames[i - 1], frames[i], n).fold_left(
            0int,
            |sum: int, d: int| sum + d,
        ) >= 6 * n,
{
    lemma_frame_gap(frames[i - 1], frames[i], n);
}

/// A slide change keeps the two seconds after it busy and nothing else, from
/// where its frame stands among the two hundred that were sampled. A slice is
/// 20 ms, and `s0` is the one in which that frame stands: two hundred frames of
/// 20 ms each are 4 s.
pub proof fn law_a_new_slide_is_busy_for_two_seconds(
    frames: Seq<Seq<u8>>,
    duration: int,
    i: int,
    s0: int,
    s: int,
)
    requires
        0 <= duration,
        1 <= i < frames.len(),
        4_000_000 * s0 <= i * duration < 4_000_000 * s0 + 4_000_000,
    ensures
        slide_busy(frames, duration, i, s) <==> slide_changes(frames, i) && s0 <= s < s0 + 100,
{
    let q = frame_slice(i, duration);
    crate::plan::lemma_quotient(i * duration, 4_000_000, q);
    assert(q == s0);
}

/// As many changes are counted as there are frames that bring a new slide.
pub proof fn law_every_new_slide_counts_once(frames: Seq<Seq<u8>>, n: int)
    requires
        1 <= n,
    ensures
        count_changes(frames, n) == vstd::set_lib::set_int_range(1, n).filter(
            |i: int| slide_changes(frames, i),
        ).len(),
    decreases n,
{
    let p = |i: int| slide_changes(frames, i);
    let all = vstd::set_lib::set_int_range(1, n);
    vstd::set_lib::lemma_int_range(1, n);
    all.lemma_len_filter(p);
    if n > 1 {
        law_every_new_slide_counts_once(frames, n - 1);
        let less = vstd::set_lib::set_int_range(1, n - 1);
        vstd::set_lib::lemma_int_range(1, n - 1);
        less.lemma_len_filter(p);
        if slide_changes(frames, n - 1) {
            assert(all.filter(p) =~= less.filter(p).insert(n - 1));
        } else {
            assert(all.filter(p) =~= less.filter(p));
        }
    } else {
        assert(all.filter(p) =~= Set::empty());
    }
}

} // verus!
