//! What a look over the material finds before anything is cut.
use vstd::prelude::*;

use crate::constants::{GATE_DB, QUIET_DB, SAMPLES_PER_SLICE, VAD_ENTER, VAD_EXIT};
use crate::dead_air::SPEED_FROM_US;
use crate::plan::{DeadAir, Pacing};
use crate::vad::{slices_to_us, slices_us};

verus! {

/// How many whole grid slices a recording has. A trailing partial one is
/// dropped.
pub fn grid_length(samples: usize) -> (n: usize)
    ensures
        n == samples as int / SAMPLES_PER_SLICE as int,
        320 * n <= samples < 320 * n + 320,
{
    samples / SAMPLES_PER_SLICE
}

/// How many values lie in `lo..hi`.
pub open spec fn count_between(s: Seq<i64>, lo: int, hi: int) -> nat
    decreases s.len(),
{
    if s.len() == 0 {
        0
    } else {
        count_between(s.drop_last(), lo, hi) + (if lo <= s.last() < hi {
            1nat
        } else {
            0nat
        })
    }
}

/// Below every value.
pub const LOWEST: i128 = -9_223_372_036_854_775_808;

/// Above every value.
pub const HIGHEST: i128 = 9_223_372_036_854_775_808;

fn count_in(v: &Vec<i64>, lo: i128, hi: i128) -> (n: usize)
    ensures
        n == count_between(v@, lo as int, hi as int),
        n <= v@.len(),
{
    let mut n: usize = 0;
    let mut k: usize = 0;
    while k < v.len()
        invariant
            n <= k <= v@.len(),
            n == count_between(v@.take(k as int), lo as int, hi as int),
        decreases v@.len() - k,
    {
        assert(v@.take(k + 1).drop_last() =~= v@.take(k as int));
        if lo <= v[k] as i128 && (v[k] as i128) < hi {
            n += 1;
        }
        k += 1;
    }
    assert(v@.take(k as int) =~= v@);
    n
}

/// Counts of values in three bands.
#[derive(Clone, Copy, Debug, PartialEq, Eq, Structural)]
pub struct Bands {
    pub low: usize,
    pub middle: usize,
    pub high: usize,
}

/// The values below `from`, from there to `to`, and from `to` on.
pub open spec fn banded(v: Seq<i64>, from: int, to: int, b: Bands) -> bool {
    &&& b.low == count_between(v, LOWEST as int, from)
    &&& b.middle == count_between(v, from, to)
    &&& b.high == count_between(v, to, HIGHEST as int)
}

/// Every value is in one of the bands.
proof fn lemma_bands_add_up(v: Seq<i64>, from: int, to: int)
    requires
        from <= to,
        LOWEST <= from,
        to <= HIGHEST,
    ensures
        count_between(v, LOWEST as int, from) + count_between(v, from, to) + count_between(
            v,
            to,
            HIGHEST as int,
        ) == v.len(),
    decreases v.len(),
{
    if v.len() > 0 {
        lemma_bands_add_up(v.drop_last(), from, to);
    }
}

/// The speech probabilities: below the exit threshold, between the two, and at
/// or above the enter threshold.
pub fn probability_bands(probs: &Vec<i64>) -> (b: Bands)
    ensures
        banded(probs@, VAD_EXIT as int, VAD_ENTER as int, b),
        banded(probs@, 150_000, 300_000, b),
        b.low + b.middle + b.high == probs@.len(),
{
    proof {
        lemma_bands_add_up(probs@, VAD_EXIT as int, VAD_ENTER as int);
    }
    Bands {
        low: count_in(probs, LOWEST, VAD_EXIT as i128),
        middle: count_in(probs, VAD_EXIT as i128, VAD_ENTER as i128),
        high: count_in(probs, VAD_ENTER as i128, HIGHEST),
    }
}

/// The energy frames: quiet enough to splice in, between, and speech-level.
pub fn energy_bands(energy: &Vec<i64>) -> (b: Bands)
    ensures
        banded(energy@, QUIET_DB as int, GATE_DB as int, b),
        banded(energy@, -44_780_000, -38_780_000, b),
        b.low + b.middle + b.high == energy@.len(),
{
    proof {
        lemma_bands_add_up(energy@, QUIET_DB as int, GATE_DB as int);
    }
    Bands {
        low: count_in(energy, LOWEST, QUIET_DB as i128),
        middle: count_in(energy, QUIET_DB as i128, GATE_DB as i128),
        high: count_in(energy, GATE_DB as i128, HIGHEST),
    }
}

// ---------------------------------------------------------------------------
// Is there anything to cut
// ---------------------------------------------------------------------------
/// How many of the first `n` slices are silent while nothing happens.
pub open spec fn idle_slices(speech: Seq<bool>, frozen: Seq<bool>, n: int) -> nat
    decreases n,
{
    if n <= 0 {
        0
    } else {
        idle_slices(speech, frozen, n - 1) + (if !speech[n - 1] && frozen[n - 1] {
            1nat
        } else {
            0nat
        })
    }
}

/// The shorter of two lengths.
pub open spec fn common_length(speech: Seq<bool>, frozen: Seq<bool>) -> int {
    if speech.len() < frozen.len() {
        speech.len() as int
    } else {
        frozen.len() as int
    }
}

/// The slices that could go: no speech, and nothing happening.
pub fn dead_slices(speech: &Vec<bool>, frozen: &Vec<bool>) -> (n: usize)
    ensures
        n == idle_slices(speech@, frozen@, common_length(speech@, frozen@)),
        n <= speech@.len(),
{
    let mut n: usize = 0;
    let mut k: usize = 0;
    while k < speech.len() && k < frozen.len()
        invariant
            n <= k <= speech@.len(),
            k <= frozen@.len(),
            n == idle_slices(speech@, frozen@, k as int),
        decreases speech@.len() - k,
    {
        if !speech[k] && frozen[k] {
            n += 1;
        }
        k += 1;
    }
    n
}

/// Whether an edit will pay. Advisory only: it changes no cut. The dead time
/// is a ceiling, since collapses and speed-ups keep some of it.
#[derive(Clone, Copy, Debug, PartialEq, Eq, Structural)]
pub enum Outlook {
    Worth,
    Little,
    Marginal,
}

/// From 12 percent dead time on an edit is worth it, and under 5 percent there
/// is little to cut. Of an empty recording neither holds.
pub open spec fn outlook_for(dead: int, grid_len: int) -> Outlook {
    if grid_len > 0 && 100 * dead >= 12 * grid_len {
        Outlook::Worth
    } else if grid_len > 0 && 100 * dead < 5 * grid_len {
        Outlook::Little
    } else {
        Outlook::Marginal
    }
}

/// Judges the dead time of a recording.
pub fn outlook(dead: usize, grid_len: usize) -> (o: Outlook)
    ensures
        o == outlook_for(dead as int, grid_len as int),
{
    let d: u128 = 100 * dead as u128;
    let n: u128 = grid_len as u128;
    if n > 0 && d >= 12 * n {
        Outlook::Worth
    } else if n > 0 && d < 5 * n {
        Outlook::Little
    } else {
        Outlook::Marginal
    }
}

impl Outlook {
    pub open spec fn spec_text(self) -> Seq<char> {
        match self {
            Outlook::Worth => "worth editing"@,
            Outlook::Little => "little to cut — probably not worth it"@,
            Outlook::Marginal => "marginal — some dead air, but not much"@,
        }
    }

    pub fn text(&self) -> (s: &'static str)
        ensures
            s@ == self.spec_text(),
    {
        match self {
            Outlook::Worth => "worth editing",
            Outlook::Little => "little to cut — probably not worth it",
            Outlook::Marginal => "marginal — some dead air, but not much",
        }
    }
}

// ---------------------------------------------------------------------------
// What will become of the dead runs
// ---------------------------------------------------------------------------
pub open spec fn runs_forward(runs: Seq<(usize, usize)>) -> bool {
    forall|k: int| 0 <= k < runs.len() ==> (#[trigger] runs[k]).0 <= runs[k].1
}

/// How many runs last at least `lo` and less than `hi`; no `hi` is no limit.
pub open spec fn runs_lasting(runs: Seq<(usize, usize)>, lo: int, hi: Option<int>) -> nat
    decreases runs.len(),
{
    if runs.len() == 0 {
        0
    } else {
        let len = slices_us(runs.last().1 - runs.last().0);
        runs_lasting(runs.drop_last(), lo, hi) + (if lo <= len && (hi matches Some(h) ==> len < h) {
            1nat
        } else {
            0nat
        })
    }
}

/// From which length on a run is sped up, if runs are.
pub open spec fn speed_from(dead_air: DeadAir) -> Option<int> {
    if dead_air == DeadAir::Speed {
        Some(SPEED_FROM_US as int)
    } else {
        None
    }
}

/// How many runs are too short to touch, are collapsed, and are sped up. Where
/// the floor is above the length from which runs are sped up, a run between the
/// two is counted as both.
pub fn run_bands(runs: &Vec<(usize, usize)>, pacing: &Pacing) -> (b: Bands)
    requires
        runs_forward(runs@),
        0 <= pacing.pause_floor_us,
    ensures
        b.low == runs_lasting(runs@, 0, Some(pacing.pause_floor_us as int)),
        b.middle == runs_lasting(
            runs@,
            pacing.pause_floor_us as int,
            speed_from(pacing.dead_air),
        ),
        b.high == (match speed_from(pacing.dead_air) {
            Some(t) => runs_lasting(runs@, t, None),
            None => 0,
        }),
{
    let floor: i128 = pacing.pause_floor_us as i128;
    let split: Option<i128> = if pacing.dead_air == DeadAir::Speed {
        Some(SPEED_FROM_US as i128)
    } else {
        None
    };
    let mut b = Bands { low: 0, middle: 0, high: 0 };
    let mut k: usize = 0;
    while k < runs.len()
        invariant
            k <= runs@.len(),
            runs_forward(runs@),
            floor == pacing.pause_floor_us,
            0 <= floor,
            split == (if pacing.dead_air == DeadAir::Speed {
                Some(SPEED_FROM_US as i128)
            } else {
                None
            }),
            b.low <= k,
            b.middle <= k,
            b.high <= k,
            b.low == runs_lasting(runs@.take(k as int), 0, Some(floor as int)),
            b.middle == runs_lasting(
                runs@.take(k as int),
                floor as int,
                speed_from(pacing.dead_air),
            ),
            b.high == (match speed_from(pacing.dead_air) {
                Some(t) => runs_lasting(runs@.take(k as int), t, None),
                None => 0,
            }),
        decreases runs@.len() - k,
    {
        assert(runs@.take(k + 1).drop_last() =~= runs@.take(k as int));
        let run = runs[k];
        assert(runs@[k as int].0 <= runs@[k as int].1);
        let len: i128 = slices_to_us(run.1 - run.0);
        if len < floor {
            b.low = b.low + 1;
        }
        match split {
            Some(t) => {
                if floor <= len && len < t {
                    b.middle = b.middle + 1;
                }
                if len >= t {
                    b.high = b.high + 1;
                }
            },
            None => {
                if floor <= len {
                    b.middle = b.middle + 1;
                }
            },
        }
        k += 1;
    }
    assert(runs@.take(k as int) =~= runs@);
    b
}

/// How many slices the runs cover.
pub open spec fn total_slices(runs: Seq<(usize, usize)>) -> int
    decreases runs.len(),
{
    if runs.len() == 0 {
        0
    } else {
        total_slices(runs.drop_last()) + runs.last().1 - runs.last().0
    }
}

/// How many slices the runs cover.
pub fn count_slices(runs: &Vec<(usize, usize)>) -> (n: u128)
    requires
        runs_forward(runs@),
    ensures
        n == total_slices(runs@),
{
    let mut n: u128 = 0;
    let mut k: usize = 0;
    while k < runs.len()
        invariant
            k <= runs@.len(),
            runs_forward(runs@),
            n == total_slices(runs@.take(k as int)),
            n <= k * usize::MAX,
        decreases runs@.len() - k,
    {
        assert(runs@.take(k + 1).drop_last() =~= runs@.take(k as int));
        let run = runs[k];
        assert(runs@[k as int].0 <= runs@[k as int].1);
        let ghost gk = k as int;
        assert(k * usize::MAX + usize::MAX == (k + 1) * usize::MAX && (gk + 1) * usize::MAX
            <= 0xffff_ffff_ffff_ffff * 0xffff_ffff_ffff_ffff) by (nonlinear_arith)
            requires
                gk == k,
                0 <= gk + 1 <= 0xffff_ffff_ffff_ffff,
                usize::MAX <= 0xffff_ffff_ffff_ffff,
        ;
        n = n + (run.1 - run.0) as u128;
        k += 1;
    }
    assert(runs@.take(k as int) =~= runs@);
    n
}

// ---------------------------------------------------------------------------
// Laws
// ---------------------------------------------------------------------------
/// An edit is worth it from 12 percent of dead time on and hardly under 5
/// percent; of nothing neither holds.
pub proof fn law_dead_time_decides_the_outlook(dead: int, grid_len: int)
    requires
        0 <= dead,
        0 <= grid_len,
    ensures
        outlook_for(dead, grid_len) is Worth <==> grid_len > 0 && 100 * dead >= 12 * grid_len,
        outlook_for(dead, grid_len) is Little <==> grid_len > 0 && 100 * dead < 5 * grid_len,
{
}

/// The slices that could go are those in which nobody speaks and nothing
/// happens, each counted once.
pub proof fn law_idle_slices_are_silent_and_still(speech: Seq<bool>, frozen: Seq<bool>, n: int)
    requires
        0 <= n,
    ensures
        idle_slices(speech, frozen, n) == vstd::set_lib::set_int_range(0, n).filter(
            |i: int| !speech[i] && frozen[i],
        ).len(),
    decreases n,
{
    let p = |i: int| !speech[i] && frozen[i];
    let all = vstd::set_lib::set_int_range(0, n);
    vstd::set_lib::lemma_int_range(0, n);
    all.lemma_len_filter(p);
    if n > 0 {
        law_idle_slices_are_silent_and_still(speech, frozen, n - 1);
        let less = vstd::set_lib::set_int_range(0, n - 1);
        vstd::set_lib::lemma_int_range(0, n - 1);
        less.lemma_len_filter(p);
        if p(n - 1) {
            assert(all.filter(p) =~= less.filter(p).insert(n - 1));
        } else {
            assert(all.filter(p) =~= less.filter(p));
        }
    } else {
        assert(all.filter(p) =~= Set::empty());
    }
}

/// As many values are counted as lie between the two, the lower one among them.
pub proof fn law_values_between_are_counted_once(s: Seq<i64>, lo: int, hi: int)
    ensures
        count_between(s, lo, hi) == s.filter(|x: i64| lo <= x < hi).len(),
    decreases s.len(),
{
    reveal(Seq::filter);
    if s.len() > 0 {
        law_values_between_are_counted_once(s.drop_last(), lo, hi);
    }
}

/// As many runs are counted as last that long, in slices of 20 ms.
pub proof fn law_runs_are_counted_by_their_length(
    runs: Seq<(usize, usize)>,
    lo: int,
    hi: Option<int>,
)
    ensures
        runs_lasting(runs, lo, hi) == runs.filter(
            |r: (usize, usize)|
                lo <= 20_000 * (r.1 - r.0) && (hi matches Some(h) ==> 20_000 * (r.1 - r.0) < h),
        ).len(),
    decreases runs.len(),
{
    reveal(Seq::filter);
    if runs.len() > 0 {
        law_runs_are_counted_by_their_length(runs.drop_last(), lo, hi);
    }
}

/// Where the floor is no higher than four seconds and dead air is sped up, every
/// run falls into one band and one only: too short, collapsed, or sped up from
/// four seconds on.
pub proof fn law_every_run_is_in_one_band(
    runs: Seq<(usize, usize)>,
    floor: int,
    dead_air: DeadAir,
)
    requires
        runs_forward(runs),
        0 <= floor <= 4_000_000,
    ensures
        speed_from(dead_air) == (if dead_air is Speed {
            Some(4_000_000int)
        } else {
            None
        }),
        dead_air is Speed ==> runs_lasting(runs, 0, Some(floor)) + runs_lasting(
            runs,
            floor,
            Some(4_000_000),
        ) + runs_lasting(runs, 4_000_000, None) == runs.len(),
        dead_air !is Speed ==> runs_lasting(runs, 0, Some(floor)) + runs_lasting(runs, floor, None)
            == runs.len(),
    decreases runs.len(),
{
    if runs.len() > 0 {
        let front = runs.drop_last();
        assert forall|k: int| 0 <= k < front.len() implies (#[trigger] front[k]).0 <= front[k].1 by {
            assert(runs[k].0 <= runs[k].1);
        }
        law_every_run_is_in_one_band(front, floor, dead_air);
        assert(runs[runs.len() - 1].0 <= runs[runs.len() - 1].1);
    }
}

/// The slices that the runs cover are the lengths of the runs added up.
pub proof fn law_run_lengths_add_up(runs: Seq<(usize, usize)>, next: (usize, usize))
    ensures
        total_slices(Seq::empty()) == 0,
        total_slices(runs.push(next)) == total_slices(runs) + (next.1 - next.0),
{
    assert(runs.push(next).drop_last() =~= runs);
}

} // verus!
