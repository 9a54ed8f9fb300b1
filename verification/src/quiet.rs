//! Reading the energy curve around a splice point.
//!
//! Energy frames hop by ten milliseconds; levels are in millionths of a
//! decibel.
use vstd::prelude::*;

use crate::constants::{ENERGY_US, GATE_DB, QUIET_DB, SNAP_US, TIME_MAX};

verus! {

/// The energy frame that holds a moment; a moment before the start counts as
/// the first.
pub open spec fn frame_of(t: int) -> int {
    if t < 0 {
        0
    } else {
        t / ENERGY_US as int
    }
}

/// When an energy frame starts.
pub open spec fn frame_time(i: int) -> int {
    i * ENERGY_US
}

/// The energy curve is short enough for its times to be held.
pub open spec fn energy_fits(energy: Seq<i64>) -> bool {
    frame_time(energy.len() as int) <= TIME_MAX
}

/// A time that every sum here can be taken of.
pub open spec fn near(t: int) -> bool {
    -2 * TIME_MAX <= t <= 2 * TIME_MAX
}

pub(crate) fn frame(t: i64) -> (i: u64)
    ensures
        i == frame_of(t as int),
{
    if t < 0 {
        0
    } else {
        (t / ENERGY_US) as u64
    }
}

/// [`frame_of`], held to the number of frames.
fn frame_within(t: i64, n: usize) -> (i: usize)
    ensures
        i == (if frame_of(t as int) < n {
            frame_of(t as int)
        } else {
            n as int
        }),
{
    let f: u64 = frame(t);
    if f < n as u64 {
        f as usize
    } else {
        n
    }
}

/// The quietest frame of `[a, b)`, the first of them where several tie.
pub open spec fn quietest(energy: Seq<i64>, a: int, b: int) -> int
    decreases b - a,
{
    if b <= a + 1 {
        a
    } else {
        let m = quietest(energy, a, b - 1);
        if energy[b - 1] < energy[m] {
            b - 1
        } else {
            m
        }
    }
}

/// The frames within reach of a splice at `t`.
pub open spec fn snap_window(t: int, energy: Seq<i64>) -> (int, int) {
    let b = frame_of(t + SNAP_US);
    (
        frame_of(t - SNAP_US),
        if b < energy.len() {
            b
        } else {
            energy.len() as int
        },
    )
}

/// Where a splice at `t` moves to, and the level there: the quietest frame
/// within reach. With no frame in reach it stays.
pub open spec fn snapped(t: int, energy: Seq<i64>) -> (int, int) {
    let (a, b) = snap_window(t, energy);
    if b <= a {
        (
            t,
            if frame_of(t) < energy.len() {
                energy[frame_of(t)] as int
            } else {
                0
            },
        )
    } else {
        let m = quietest(energy, a, b);
        (frame_time(m), energy[m] as int)
    }
}

pub proof fn lemma_quietest(energy: Seq<i64>, a: int, b: int)
    requires
        a < b,
    ensures
        a <= quietest(energy, a, b) < b,
        forall|i: int| a <= i < b ==> energy[quietest(energy, a, b)] <= #[trigger] energy[i],
    decreases b - a,
{
    if b > a + 1 {
        lemma_quietest(energy, a, b - 1);
    }
}

/// Snapping finds a quietest frame: nothing within reach of the splice is
/// quieter than the point it moves to.
pub proof fn law_snap_is_quietest(t: int, energy: Seq<i64>, i: int)
    requires
        snap_window(t, energy).0 <= i < snap_window(t, energy).1,
    ensures
        snapped(t, energy).1 <= energy[i],
{
    let (a, b) = snap_window(t, energy);
    lemma_quietest(energy, a, b);
}

/// Moves a splice to the quietest frame within reach, each end on its own.
pub fn snap_in(t: i64, energy: &Vec<i64>) -> (r: (i64, i64))
    requires
        near(t as int),
        energy_fits(energy@),
    ensures
        (r.0 as int, r.1 as int) == snapped(t as int, energy@),
        near(r.0 as int),
{
    let n: usize = energy.len();
    let first: u64 = frame(t - SNAP_US);
    let b: usize = frame_within(t + SNAP_US, n);
    if b as u64 <= first {
        let f: u64 = frame(t);
        let level: i64 = if f < n as u64 {
            energy[f as usize]
        } else {
            0
        };
        return (t, level);
    }
    let a: usize = first as usize;
    let mut best: usize = a;
    let mut i: usize = a + 1;
    while i < b
        invariant
            a < i <= b <= energy@.len(),
            a <= best < i,
            best == quietest(energy@, a as int, i as int),
        decreases b - i,
    {
        if energy[i] < energy[best] {
            best = i;
        }
        i += 1;
    }
    (best as i64 * 10_000, energy[best])
}

/// The first frame of the stretch below `level` that ends just before frame
/// `i`.
pub open spec fn stretch_start(energy: Seq<i64>, level: i64, i: int) -> int
    decreases i,
{
    if i > 0 && energy[i - 1] < level {
        stretch_start(energy, level, i - 1)
    } else {
        i
    }
}

/// The frame after the stretch below `level` that starts at frame `i`.
pub open spec fn stretch_end(energy: Seq<i64>, level: i64, i: int) -> int
    decreases energy.len() - i,
{
    if i < energy.len() && energy[i] < level {
        stretch_end(energy, level, i + 1)
    } else {
        i
    }
}

proof fn lemma_stretch(energy: Seq<i64>, level: i64, i: int)
    requires
        0 <= i <= energy.len(),
    ensures
        0 <= stretch_start(energy, level, i) <= i,
        i <= stretch_end(energy, level, i) <= energy.len(),
        forall|k: int|
            stretch_start(energy, level, i) <= k < stretch_end(energy, level, i)
                ==> #[trigger] energy[k] < level,
{
    lemma_stretch_start(energy, level, i);
    lemma_stretch_end(energy, level, i);
}

proof fn lemma_stretch_start(energy: Seq<i64>, level: i64, i: int)
    requires
        0 <= i <= energy.len(),
    ensures
        0 <= stretch_start(energy, level, i) <= i,
        forall|k: int| stretch_start(energy, level, i) <= k < i ==> #[trigger] energy[k] < level,
    decreases i,
{
    if i > 0 && energy[i - 1] < level {
        lemma_stretch_start(energy, level, i - 1);
    }
}

proof fn lemma_stretch_end(energy: Seq<i64>, level: i64, i: int)
    requires
        0 <= i <= energy.len(),
    ensures
        i <= stretch_end(energy, level, i) <= energy.len(),
        forall|k: int| i <= k < stretch_end(energy, level, i) ==> #[trigger] energy[k] < level,
    decreases energy.len() - i,
{
    if i < energy.len() && energy[i] < level {
        lemma_stretch_end(energy, level, i + 1);
    }
}

/// How long the quiet around `t` lasts; zero where `t` itself is not quiet.
pub open spec fn quiet_run(t: int, energy: Seq<i64>) -> int {
    let i = frame_of(t);
    if i >= energy.len() || energy[i] >= QUIET_DB {
        0
    } else {
        frame_time(stretch_end(energy, QUIET_DB, i) - stretch_start(energy, QUIET_DB, i))
    }
}

fn walk_back(energy: &Vec<i64>, level: i64, i: usize) -> (a: usize)
    requires
        i <= energy@.len(),
    ensures
        a == stretch_start(energy@, level, i as int),
        a <= i,
{
    let mut a: usize = i;
    while a > 0 && energy[a - 1] < level
        invariant
            a <= i <= energy@.len(),
            stretch_start(energy@, level, i as int) == stretch_start(energy@, level, a as int),
        decreases a,
    {
        a -= 1;
    }
    a
}

/// THE QUIET-RUN GUARD. A point in the middle of a word can be quiet; how long
/// the quiet lasts is what separates a real gap from a consonant.
pub fn quiet_run_us(t: i64, energy: &Vec<i64>) -> (us: i64)
    requires
        energy_fits(energy@),
    ensures
        us == quiet_run(t as int, energy@),
        0 <= us <= TIME_MAX,
{
    let n: usize = energy.len();
    let f: u64 = frame(t);
    if f >= n as u64 || energy[f as usize] >= QUIET_DB {
        return 0;
    }
    let i: usize = f as usize;
    let a: usize = walk_back(energy, QUIET_DB, i);
    let mut b: usize = i;
    while b < n && energy[b] < QUIET_DB
        invariant
            i <= b <= n,
            n == energy@.len(),
            stretch_end(energy@, QUIET_DB, i as int) == stretch_end(energy@, QUIET_DB, b as int),
        decreases n - b,
    {
        b += 1;
    }
    (b - a) as i64 * 10_000
}

/// Where the voice before `t` stopped, by the audio.
pub open spec fn speech_end(t: int, energy: Seq<i64>) -> int {
    let i = if frame_of(t) < energy.len() {
        frame_of(t)
    } else {
        energy.len() as int
    };
    frame_time(stretch_start(energy, GATE_DB, i))
}

/// How long nobody has spoken just before `t`, by the audio.
pub open spec fn quiet_before(t: int, energy: Seq<i64>) -> int {
    let i = if frame_of(t) < energy.len() {
        frame_of(t)
    } else {
        energy.len() as int
    };
    frame_time(i) - speech_end(t, energy)
}

/// Where the previous speech actually stopped, from audio rather than from the
/// previous word's end.
pub fn speech_end_before(t: i64, energy: &Vec<i64>) -> (us: i64)
    requires
        energy_fits(energy@),
    ensures
        us == speech_end(t as int, energy@),
        0 <= us <= TIME_MAX,
{
    let i: usize = frame_within(t, energy.len());
    walk_back(energy, GATE_DB, i) as i64 * 10_000
}

/// Length of the stretch without speech that ends at `t`, from audio: word
/// timings absorb the pause into the previous word.
pub fn quiet_before_us(t: i64, energy: &Vec<i64>) -> (us: i64)
    requires
        energy_fits(energy@),
    ensures
        us == quiet_before(t as int, energy@),
        0 <= us <= TIME_MAX,
{
    let i: usize = frame_within(t, energy.len());
    (i - walk_back(energy, GATE_DB, i)) as i64 * 10_000
}

/// Every frame of a quiet run is quiet, and the run holds the point it was
/// measured at.
pub proof fn law_quiet_run_is_quiet(t: int, energy: Seq<i64>)
    requires
        quiet_run(t, energy) > 0,
    ensures
        ({
            let i = frame_of(t);
            let a = stretch_start(energy, QUIET_DB, i);
            let b = stretch_end(energy, QUIET_DB, i);
            &&& a <= i < b
            &&& frame_time(b - a) == quiet_run(t, energy)
            &&& forall|k: int| a <= k < b ==> #[trigger] energy[k] < QUIET_DB
        }),
{
    let i = frame_of(t);
    lemma_stretch(energy, QUIET_DB, i);
    if i + 1 <= energy.len() {
        lemma_stretch(energy, QUIET_DB, i + 1);
    }
}

// ---------------------------------------------------------------------------
// Laws
// ---------------------------------------------------------------------------
/// A quiet run lasts no longer than the curve.
pub proof fn lemma_quiet_run(t: int, energy: Seq<i64>)
    requires
        energy_fits(energy),
    ensures
        0 <= quiet_run(t, energy) <= TIME_MAX,
{
    let i = frame_of(t);
    if i < energy.len() {
        lemma_stretch(energy, QUIET_DB, i);
    }
}

/// The level at a splice is one of the curve, or zero.
pub proof fn lemma_snapped_level(t: int, energy: Seq<i64>)
    ensures
        i64::MIN <= snapped(t, energy).1 <= i64::MAX,
{
}

/// The voice before a moment stopped inside the curve.
pub proof fn lemma_speech_end(t: int, energy: Seq<i64>)
    requires
        energy_fits(energy),
    ensures
        0 <= speech_end(t, energy) <= TIME_MAX,
{
    let i = if frame_of(t) < energy.len() {
        frame_of(t)
    } else {
        energy.len() as int
    };
    lemma_stretch_start(energy, GATE_DB, i);
}

/// The 10 ms frame that holds a moment.
pub open spec fn holds_moment(i: int, t: int) -> bool {
    if t < 0 {
        i == 0
    } else {
        10_000 * i <= t < 10_000 * i + 10_000
    }
}

proof fn lemma_frame_of(t: int, i: int)
    requires
        holds_moment(i, t),
    ensures
        frame_of(t) == i,
{
}

proof fn lemma_stretch_from(energy: Seq<i64>, level: i64, a: int, i: int)
    requires
        0 <= a <= i <= energy.len(),
        forall|k: int| a <= k < i ==> #[trigger] energy[k] < level,
        a == 0 || energy[a - 1] >= level,
    ensures
        stretch_start(energy, level, i) == a,
    decreases i,
{
    if i > a {
        assert(energy[i - 1] < level);
        lemma_stretch_from(energy, level, a, i - 1);
    }
}

proof fn lemma_stretch_to(energy: Seq<i64>, level: i64, i: int, b: int)
    requires
        0 <= i <= b <= energy.len(),
        forall|k: int| i <= k < b ==> #[trigger] energy[k] < level,
        b == energy.len() || energy[b] >= level,
    ensures
        stretch_end(energy, level, i) == b,
    decreases b - i,
{
    if i < b {
        assert(energy[i] < level);
        lemma_stretch_to(energy, level, i + 1, b);
    }
}

/// The quiet around a moment lasts for as long as every frame is under
/// -44.78 dB, ten milliseconds a frame: frames `a` to `b`, which hold the
/// moment and which nothing quiet adjoins.
pub proof fn law_quiet_run_is_the_whole_stretch(t: int, energy: Seq<i64>, i: int, a: int, b: int)
    requires
        holds_moment(i, t),
        0 <= a <= i < b <= energy.len(),
        forall|k: int| a <= k < b ==> #[trigger] energy[k] < -44_780_000,
        a == 0 || energy[a - 1] >= -44_780_000,
        b == energy.len() || energy[b] >= -44_780_000,
    ensures
        quiet_run(t, energy) == 10_000 * (b - a),
{
    lemma_frame_of(t, i);
    assert(energy[i] < -44_780_000);
    lemma_stretch_from(energy, QUIET_DB, a, i);
    lemma_stretch_to(energy, QUIET_DB, i, b);
}

/// There is no quiet around a moment that is not quiet itself, nor past the
/// end of the curve.
pub proof fn law_no_quiet_where_it_is_loud(t: int, energy: Seq<i64>, i: int)
    requires
        holds_moment(i, t),
        i >= energy.len() || energy[i] >= -44_780_000,
    ensures
        quiet_run(t, energy) == 0,
{
    lemma_frame_of(t, i);
}

/// The voice before a moment stopped where the last frame before it that is
/// -38.78 dB or more ends, and nobody has spoken since.
pub proof fn law_speech_ends_at_the_last_loud_frame(t: int, energy: Seq<i64>, i: int, a: int)
    requires
        holds_moment(i, t) && i <= energy.len() || i == energy.len() && t >= 10_000 * i,
        0 <= a <= i,
        forall|k: int| a <= k < i ==> #[trigger] energy[k] < -38_780_000,
        a == 0 || energy[a - 1] >= -38_780_000,
    ensures
        speech_end(t, energy) == 10_000 * a,
        quiet_before(t, energy) == 10_000 * (i - a),
{
    lemma_stretch_from(energy, GATE_DB, a, i);
}

proof fn lemma_quietest_is_first(energy: Seq<i64>, a: int, b: int)
    requires
        a < b,
    ensures
        forall|i: int|
            a <= i < quietest(energy, a, b) ==> energy[quietest(energy, a, b)]
                < #[trigger] energy[i],
    decreases b - a,
{
    if b > a + 1 {
        lemma_quietest(energy, a, b - 1);
        lemma_quietest_is_first(energy, a, b - 1);
    }
}

/// A splice moves to the quietest frame from 0.35 s before it to 0.35 s after
/// it, the first of them where several are as quiet. Where the curve has no
/// frame there it stays.
pub proof fn law_a_splice_moves_to_the_quietest_frame(t: int, energy: Seq<i64>, a: int, b: int)
    requires
        holds_moment(a, t - 350_000),
        holds_moment(b, t + 350_000),
    ensures
        a < b && a < energy.len() ==> exists|m: int|
            a <= m < b && m < energy.len() && snapped(t, energy) == (
                10_000 * m,
                (#[trigger] energy[m]) as int,
            ) && (forall|i: int|
                a <= i < b && i < energy.len() ==> energy[m] <= #[trigger] energy[i]) && (forall|
                i: int,
            |
                a <= i < m ==> energy[m] < #[trigger] energy[i]),
        a >= b || a >= energy.len() ==> snapped(t, energy).0 == t,
{
    lemma_frame_of(t - 350_000, a);
    lemma_frame_of(t + 350_000, b);
    let (x, y) = snap_window(t, energy);
    if x < y {
        lemma_quietest(energy, x, y);
        lemma_quietest_is_first(energy, x, y);
        let m = quietest(energy, x, y);
        assert(energy[m] <= energy[x]);
    }
}

} // verus!
