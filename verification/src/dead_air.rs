//! Where the dead air is: runs of slices with neither speech nor movement.
use vstd::prelude::*;

use crate::constants::{DEAD_BRIDGE_US, GATE_DB, MIN_DEAD_US};
use crate::mask::{extend_runs, inverted, lemma_runs_between, runs, runs_between};
use crate::order::{is_order, lemma_an_order_exists, order_of};
use crate::vad::{
    longest_first, ranked_silences, slices_to_us, slices_us, us_to_slices, whole_slices,
};

verus! {

// ---------------------------------------------------------------------------
// Dead runs
// ---------------------------------------------------------------------------
/// A slice is dead when nobody speaks and nothing moves.
pub open spec fn dead_mask(speech: Seq<bool>, frozen: Seq<bool>) -> Seq<bool> {
    Seq::new(speech.len(), |i: int| !speech[i] && frozen[i])
}

/// The maximal runs of dead slices.
pub fn dead_runs(speech: &Vec<bool>, frozen: &Vec<bool>) -> (out: Vec<(usize, usize)>)
    requires
        forall|i: int| frozen@.len() <= i < speech@.len() ==> #[trigger] speech@[i],
    ensures
        out@ == runs(dead_mask(speech@, frozen@)),
{
    let ghost m = dead_mask(speech@, frozen@);
    let mut out: Vec<(usize, usize)> = Vec::new();
    let mut i: usize = 0;
    while i < speech.len()
        invariant
            i <= speech@.len(),
            m == dead_mask(speech@, frozen@),
            forall|i: int| frozen@.len() <= i < speech@.len() ==> #[trigger] speech@[i],
            out@ == runs_between(m, 0, i as int),
        decreases speech@.len() - i,
    {
        let dead = !speech[i] && frozen[i];
        extend_runs(&mut out, i, dead);
        i += 1;
    }
    out
}

/// Whether slice `i` is in one of the runs.
pub open spec fn in_runs(runs: Seq<(usize, usize)>, i: int) -> bool {
    exists|k: int| 0 <= k < runs.len() && (#[trigger] runs[k]).0 <= i < runs[k].1
}

/// A slice is in a dead run exactly when nobody speaks in it and nothing moves.
pub proof fn law_dead_runs_hold_dead_slices(speech: Seq<bool>, frozen: Seq<bool>, i: int)
    requires
        speech.len() <= usize::MAX,
    ensures
        in_runs(runs(dead_mask(speech, frozen)), i) <==> 0 <= i < speech.len() && !speech[i]
            && frozen[i],
{
    let m = dead_mask(speech, frozen);
    let r = runs(m);
    lemma_runs_between(m, 0, m.len() as int);
    if 0 <= i < m.len() && m[i] {
        let k = choose|k: int| 0 <= k < r.len() && (#[trigger] r[k]).0 <= i < r[k].1;
        assert(in_runs(r, i));
    }
    if in_runs(r, i) {
        let k = choose|k: int| 0 <= k < r.len() && (#[trigger] r[k]).0 <= i < r[k].1;
        assert(m[i]);
    }
}

/// More stillness only adds dead air.
pub proof fn law_stillness_adds_dead_air(
    speech: Seq<bool>,
    less: Seq<bool>,
    more: Seq<bool>,
    i: int,
)
    requires
        speech.len() <= usize::MAX,
        forall|k: int| 0 <= k < speech.len() && #[trigger] less[k] ==> more[k],
        in_runs(runs(dead_mask(speech, less)), i),
    ensures
        in_runs(runs(dead_mask(speech, more)), i),
{
    law_dead_runs_hold_dead_slices(speech, less, i);
    law_dead_runs_hold_dead_slices(speech, more, i);
}

/// Where something moves all the time there is no dead air.
pub proof fn law_moving_picture_has_no_dead_air(speech: Seq<bool>, frozen: Seq<bool>)
    requires
        speech.len() <= usize::MAX,
        forall|k: int| 0 <= k < speech.len() ==> !#[trigger] frozen[k],
    ensures
        runs(dead_mask(speech, frozen)) == Seq::<(usize, usize)>::empty(),
{
    let m = dead_mask(speech, frozen);
    let r = runs(m);
    lemma_runs_between(m, 0, m.len() as int);
    if r.len() > 0 {
        assert(m[r[0].0 as int]);
        assert(frozen[r[0].0 as int]);
    }
    assert(r =~= Seq::empty());
}

/// Where nothing moves at all the dead runs are the silences, in time order:
/// the runs that are listed longest first when all of them are asked for.
pub proof fn law_still_picture_leaves_silences(speech: Seq<bool>, frozen: Seq<bool>, n: nat)
    requires
        speech.len() <= i64::MAX,
        speech.len() <= usize::MAX,
        forall|k: int| 0 <= k < speech.len() ==> #[trigger] frozen[k],
        n >= runs(dead_mask(speech, frozen)).len(),
    ensures
        runs(dead_mask(speech, frozen)) == runs(inverted(speech)),
        ranked_silences(speech, n).len() == runs(dead_mask(speech, frozen)).len(),
        forall|r: (usize, usize)|
            #[trigger] ranked_silences(speech, n).contains(r) <==> runs(
                dead_mask(speech, frozen),
            ).contains(r),
{
    assert(dead_mask(speech, frozen) =~= inverted(speech));
    let dead = runs(inverted(speech));
    let ranked = ranked_silences(speech, n);
    let order = order_of(longest_first(dead));
    lemma_runs_between(inverted(speech), 0, speech.len() as int);
    assert(dead.len() <= usize::MAX) by {
        lemma_runs_fit(inverted(speech), speech.len() as int);
    }
    lemma_an_order_exists(longest_first(dead));
    assert(is_order(longest_first(dead), order));
    assert forall|r: (usize, usize)| #[trigger] ranked.contains(r) implies dead.contains(r) by {
        let k = choose|k: int| 0 <= k < ranked.len() && ranked[k] == r;
        assert(dead[order[k] as int] == r);
    }
    assert forall|r: (usize, usize)| dead.contains(r) implies #[trigger] ranked.contains(r) by {
        let j = choose|j: int| 0 <= j < dead.len() && dead[j] == r;
        assert(order.contains(j as usize));
        let k = choose|k: int| 0 <= k < order.len() && order[k] == j as usize;
        assert(ranked[k] == r);
    }
}

/// There are no more runs than slices.
proof fn lemma_runs_fit(mask: Seq<bool>, to: int)
    requires
        0 <= to <= mask.len() <= usize::MAX,
    ensures
        runs_between(mask, 0, to).len() <= to,
    decreases to,
{
    if to > 0 {
        lemma_runs_fit(mask, to - 1);
    }
}

/// Runs joined wherever less than `gap` separates them.
pub open spec fn joined_runs(runs: Seq<(usize, usize)>, gap: int) -> Seq<(usize, usize)>
    decreases runs.len(),
{
    if runs.len() == 0 {
        Seq::empty()
    } else {
        let r = joined_runs(runs.drop_last(), gap);
        let x = runs.last();
        if r.len() > 0 && slices_us(x.0 - r.last().1) < gap {
            r.drop_last().push((r.last().0, x.1))
        } else {
            r.push(x)
        }
    }
}

/// The silent runs inside each of the given ranges.
pub open spec fn silent_parts(speech: Seq<bool>, ranges: Seq<(usize, usize)>) -> Seq<
    (usize, usize),
>
    decreases ranges.len(),
{
    if ranges.len() == 0 {
        Seq::empty()
    } else {
        silent_parts(speech, ranges.drop_last()) + runs_between(
            inverted(speech),
            ranges.last().0 as int,
            ranges.last().1 as int,
        )
    }
}

/// Runs are in order, do not overlap, and end by `n`.
pub open spec fn ordered_runs(runs: Seq<(usize, usize)>, n: int) -> bool {
    &&& forall|k: int| 0 <= k < runs.len() ==> (#[trigger] runs[k]).0 <= runs[k].1 <= n
    &&& forall|k: int, l: int|
        0 <= k < l < runs.len() ==> (#[trigger] runs[k]).1 <= (#[trigger] runs[l]).0
}

proof fn lemma_joined_runs(runs: Seq<(usize, usize)>, gap: int, n: int)
    requires
        ordered_runs(runs, n),
    ensures
        ordered_runs(joined_runs(runs, gap), n),
        runs.len() > 0 ==> joined_runs(runs, gap).len() > 0 && joined_runs(runs, gap).last().1
            == runs.last().1,
    decreases runs.len(),
{
    if runs.len() > 0 {
        let front = runs.drop_last();
        assert forall|k: int| 0 <= k < front.len() implies (#[trigger] front[k]).0 <= front[k].1
            <= n by {
            assert(runs[k].0 <= runs[k].1);
        }
        assert(ordered_runs(front, n));
        lemma_joined_runs(front, gap, n);
        let r = joined_runs(front, gap);
        let x = runs.last();
        let s = joined_runs(runs, gap);
        assert(r.len() > 0 ==> r.last().1 <= x.0) by {
            if r.len() > 0 {
                if front.len() > 0 {
                    assert(runs[front.len() - 1].1 <= runs[runs.len() - 1].0);
                }
            }
        }
        assert forall|k: int| 0 <= k < s.len() implies (#[trigger] s[k]).0 <= s[k].1 <= n by {
            assert(runs[runs.len() - 1].1 <= n);
            if k < r.len() {
                assert(r[k].0 <= r[k].1);
            }
        }
        assert forall|k: int, l: int| 0 <= k < l < s.len() implies (#[trigger] s[k]).1 <= (
        #[trigger] s[l]).0 by {
            assert(k < r.len());
            if l < r.len() {
                assert(r[k].1 <= r[l].0);
            }
            if l == r.len() {
                if k < r.len() - 1 {
                    assert(r[k].1 <= r[r.len() - 1].0);
                    assert(r[r.len() - 1].0 <= r[r.len() - 1].1);
                }
            }
        }
    }
}

/// Joins runs separated by less than `max_gap_us`, then takes speech out
/// again: a join may have swallowed a word.
pub fn bridge_dead(runs: &Vec<(usize, usize)>, speech: &Vec<bool>, max_gap_us: i64) -> (out: Vec<
    (usize, usize),
>)
    requires
        ordered_runs(runs@, speech@.len() as int),
    ensures
        out@ == silent_parts(speech@, joined_runs(runs@, max_gap_us as int)),
{
    let ghost n = speech@.len() as int;
    let ghost gap = max_gap_us as int;
    let mut merged: Vec<(usize, usize)> = Vec::new();
    let mut k: usize = 0;
    while k < runs.len()
        invariant
            k <= runs@.len(),
            n == speech@.len(),
            gap == max_gap_us,
            ordered_runs(runs@, n),
            merged@ == joined_runs(runs@.take(k as int), gap),
        decreases runs@.len() - k,
    {
        let x = runs[k];
        let m: usize = merged.len();
        proof {
            let t = runs@.take(k as int);
            assert(ordered_runs(t, n)) by {
                assert forall|j: int| 0 <= j < t.len() implies (#[trigger] t[j]).0 <= t[j].1
                    <= n by {
                    assert(runs@[j].0 <= runs@[j].1);
                }
            }
            lemma_joined_runs(t, gap, n);
            assert(runs@.take(k + 1).drop_last() == t);
            if m > 0 {
                assert(t.len() > 0);
                assert(runs@[k - 1].1 <= runs@[k as int].0);
            }
        }
        if m > 0 && slices_to_us(x.0 - merged[m - 1].1) < max_gap_us as i128 {
            let start: usize = merged[m - 1].0;
            let ghost old_merged = merged@;
            merged.set(m - 1, (start, x.1));
            assert(merged@ == old_merged.drop_last().push((start, x.1)));
        } else {
            merged.push(x);
        }
        k += 1;
    }
    assert(runs@.take(k as int) == runs@);
    proof {
        lemma_joined_runs(runs@, gap, n);
    }

    let ghost inv = inverted(speech@);
    let mut out: Vec<(usize, usize)> = Vec::new();
    let mut j: usize = 0;
    while j < merged.len()
        invariant
            j <= merged@.len(),
            n == speech@.len(),
            inv == inverted(speech@),
            ordered_runs(merged@, n),
            out@ == silent_parts(speech@, merged@.take(j as int)),
        decreases merged@.len() - j,
    {
        let ghost done = out@;
        let mut part: Vec<(usize, usize)> = Vec::new();
        let from: usize = merged[j].0;
        let to: usize = merged[j].1;
        let mut i: usize = from;
        while i < to
            invariant
                from <= i <= to <= speech@.len(),
                n == speech@.len(),
                inv == inverted(speech@),
                part@ == runs_between(inv, from as int, i as int),
            decreases to - i,
        {
            let silent = !speech[i];
            extend_runs(&mut part, i, silent);
            i += 1;
        }
        out.append(&mut part);
        assert(merged@.take(j + 1).drop_last() == merged@.take(j as int));
        j += 1;
    }
    assert(merged@.take(j as int) == merged@);
    out
}

// ---------------------------------------------------------------------------
// The edge guard
// ---------------------------------------------------------------------------
/// Energy frames searched from each end of a run: [`MAX_SHRINK_US`] in hops.
///
/// [`MAX_SHRINK_US`]: crate::constants::MAX_SHRINK_US
pub const MAX_SHRINK_FRAMES: usize = 300;

/// Energy frames left between a loud frame and the run: [`EDGE_MARGIN_US`] in
/// hops.
///
/// [`EDGE_MARGIN_US`]: crate::constants::EDGE_MARGIN_US
pub const EDGE_MARGIN_FRAMES: usize = 15;

/// Energy frames that a trimmed run keeps.
pub const MIN_DEAD_FRAMES: usize = 100;

/// Grid slices in the shortest dead run.
pub const MIN_DEAD_SLICES: usize = 50;

pub open spec fn least(a: int, b: int) -> int {
    if a < b {
        a
    } else {
        b
    }
}

pub open spec fn most(a: int, b: int) -> int {
    if a > b {
        a
    } else {
        b
    }
}

/// The last frame of `[from, to)` above the threshold.
pub open spec fn last_loud(energy: Seq<i64>, gate: i64, from: int, to: int) -> Option<int>
    decreases to - from,
{
    if to <= from {
        None
    } else if energy[to - 1] > gate {
        Some(to - 1)
    } else {
        last_loud(energy, gate, from, to - 1)
    }
}

/// The first frame of `[from, to)` above the threshold.
pub open spec fn first_loud(energy: Seq<i64>, gate: i64, from: int, to: int) -> Option<int>
    decreases to - from,
{
    if to <= from {
        None
    } else if energy[from] > gate {
        Some(from)
    } else {
        first_loud(energy, gate, from + 1, to)
    }
}

/// The frame at which a run ends, as far as there is energy to look at.
pub open spec fn run_end(energy: Seq<i64>, run: (usize, usize)) -> int {
    least(run.1 * 2, energy.len() as int)
}

/// The loud frame that decides where a trimmed run starts.
pub open spec fn leading_loud(energy: Seq<i64>, gate: i64, run: (usize, usize)) -> Option<int> {
    last_loud(
        energy,
        gate,
        run.0 * 2,
        least(run.0 * 2 + MAX_SHRINK_FRAMES, run_end(energy, run)),
    )
}

/// The first frame of a trimmed run: the margin past the last loud frame near
/// its start, but never so late that less than the minimum is left, and never
/// before the run.
pub open spec fn trimmed_start(energy: Seq<i64>, gate: i64, run: (usize, usize)) -> int {
    match leading_loud(energy, gate, run) {
        Some(i) => most(
            run.0 * 2,
            least(i + EDGE_MARGIN_FRAMES, run_end(energy, run) - MIN_DEAD_FRAMES),
        ),
        None => run.0 * 2,
    }
}

/// The frame after a trimmed run: the margin before the first loud frame near
/// its end, but never so early that less than the minimum is left.
pub open spec fn trimmed_end(energy: Seq<i64>, gate: i64, run: (usize, usize)) -> int {
    let b = run_end(energy, run);
    let s = trimmed_start(energy, gate, run);
    match first_loud(energy, gate, most(most(b - MAX_SHRINK_FRAMES, 0), s), b) {
        Some(i) => most(most(i - EDGE_MARGIN_FRAMES, 0), s + MIN_DEAD_FRAMES),
        None => b,
    }
}

/// A run with its loud edges taken off, back in grid slices.
pub open spec fn trimmed_run(energy: Seq<i64>, gate: i64, run: (usize, usize)) -> (usize, usize) {
    (
        (trimmed_start(energy, gate, run) / 2) as usize,
        least(trimmed_end(energy, gate, run) / 2, run.1 as int) as usize,
    )
}

pub open spec fn trimmed_runs(energy: Seq<i64>, gate: i64, runs: Seq<(usize, usize)>) -> Seq<
    (usize, usize),
> {
    Seq::new(runs.len(), |k: int| trimmed_run(energy, gate, runs[k]))
}

fn find_last_loud(energy: &Vec<i64>, gate: i64, from: usize, to: usize) -> (r: Option<usize>)
    requires
        to <= energy@.len(),
    ensures
        match r {
            Some(i) => last_loud(energy@, gate, from as int, to as int) == Some(i as int) && from
                <= i < to,
            None => last_loud(energy@, gate, from as int, to as int) is None,
        },
{
    let mut i: usize = to;
    while i > from
        invariant
            i <= to <= energy@.len(),
            last_loud(energy@, gate, from as int, to as int) == last_loud(
                energy@,
                gate,
                from as int,
                i as int,
            ),
        decreases i,
    {
        if energy[i - 1] > gate {
            return Some(i - 1);
        }
        i -= 1;
    }
    None
}

fn find_first_loud(energy: &Vec<i64>, gate: i64, from: usize, to: usize) -> (r: Option<usize>)
    requires
        to <= energy@.len(),
    ensures
        match r {
            Some(i) => first_loud(energy@, gate, from as int, to as int) == Some(i as int) && from
                <= i < to,
            None => first_loud(energy@, gate, from as int, to as int) is None,
        },
{
    let mut i: usize = from;
    while i < to
        invariant
            from <= i,
            to <= energy@.len(),
            first_loud(energy@, gate, from as int, to as int) == first_loud(
                energy@,
                gate,
                i as int,
                to as int,
            ),
        decreases to - i,
    {
        if energy[i] > gate {
            return Some(i);
        }
        i += 1;
    }
    None
}

fn trim_run(energy: &Vec<i64>, gate_db: i64, run: (usize, usize)) -> (r: (usize, usize))
    requires
        run.0 * 2 + 400 <= usize::MAX,
        run.1 * 2 <= usize::MAX,
    ensures
        r == trimmed_run(energy@, gate_db, run),
{
    let a: usize = run.0 * 2;
    let b: usize = if run.1 * 2 < energy.len() {
        run.1 * 2
    } else {
        energy.len()
    };
    let window_end: usize = if a + MAX_SHRINK_FRAMES < b {
        a + MAX_SHRINK_FRAMES
    } else {
        b
    };
    let mut start: usize = a;
    match find_last_loud(energy, gate_db, a, window_end) {
        Some(i) => {
            let latest: usize = b.saturating_sub(MIN_DEAD_FRAMES);
            let past: usize = if i + EDGE_MARGIN_FRAMES < latest {
                i + EDGE_MARGIN_FRAMES
            } else {
                latest
            };
            if past > a {
                start = past;
            }
        },
        None => {},
    }
    assert(start == trimmed_start(energy@, gate_db, run));
    let window_start: usize = if b.saturating_sub(MAX_SHRINK_FRAMES) > start {
        b - MAX_SHRINK_FRAMES
    } else {
        start
    };
    let mut end: usize = b;
    match find_first_loud(energy, gate_db, window_start, b) {
        Some(i) => {
            let back: usize = i.saturating_sub(EDGE_MARGIN_FRAMES);
            end = if back > start + MIN_DEAD_FRAMES {
                back
            } else {
                start + MIN_DEAD_FRAMES
            };
        },
        None => {},
    }
    assert(end == trimmed_end(energy@, gate_db, run));
    let last: usize = if end / 2 < run.1 {
        end / 2
    } else {
        run.1
    };
    (start / 2, last)
}

/// Trims the loud edges off every run. A run is trimmed, never dropped.
pub fn trim_edges(runs: &Vec<(usize, usize)>, energy: &Vec<i64>, gate_db: i64) -> (out: Vec<
    (usize, usize),
>)
    requires
        forall|k: int|
            0 <= k < runs@.len() ==> (#[trigger] runs@[k]).0 * 2 + 400 <= usize::MAX && runs@[k].1
                * 2 <= usize::MAX,
    ensures
        out@ == trimmed_runs(energy@, gate_db, runs@),
{
    let mut out: Vec<(usize, usize)> = Vec::new();
    let mut k: usize = 0;
    while k < runs.len()
        invariant
            k <= runs@.len(),
            forall|k: int|
                0 <= k < runs@.len() ==> (#[trigger] runs@[k]).0 * 2 + 400 <= usize::MAX
                    && runs@[k].1 * 2 <= usize::MAX,
            out@ == trimmed_runs(energy@, gate_db, runs@.take(k as int)),
        decreases runs@.len() - k,
    {
        let r = trim_run(energy, gate_db, runs[k]);
        out.push(r);
        k += 1;
        assert(out@ == trimmed_runs(energy@, gate_db, runs@.take(k as int)));
    }
    assert(runs@.take(k as int) == runs@);
    out
}

proof fn lemma_last_loud(energy: Seq<i64>, gate: i64, from: int, to: int)
    ensures
        last_loud(energy, gate, from, to) matches Some(i) ==> from <= i < to && energy[i] > gate
            && (forall|k: int| i < k < to ==> energy[k] <= gate),
        last_loud(energy, gate, from, to) is None ==> forall|k: int|
            from <= k < to ==> energy[k] <= gate,
    decreases to - from,
{
    if from < to && energy[to - 1] <= gate {
        lemma_last_loud(energy, gate, from, to - 1);
    }
}

proof fn lemma_first_loud(energy: Seq<i64>, gate: i64, from: int, to: int)
    ensures
        first_loud(energy, gate, from, to) matches Some(i) ==> from <= i < to && energy[i] > gate
            && (forall|k: int| from <= k < i ==> energy[k] <= gate),
        first_loud(energy, gate, from, to) is None ==> forall|k: int|
            from <= k < to ==> energy[k] <= gate,
    decreases to - from,
{
    if from < to && energy[from] <= gate {
        lemma_first_loud(energy, gate, from + 1, to);
    }
}

/// The edge guard never deletes a dead run: with energy for all of it, a run
/// shrinks inside itself, and keeps the minimum length or, where it was shorter
/// than that, all of its own.
pub proof fn law_trimming_keeps_the_minimum(energy: Seq<i64>, gate: i64, run: (usize, usize))
    requires
        run.0 <= run.1,
        run.1 * 2 <= energy.len() <= usize::MAX,
    ensures
        run.0 <= trimmed_run(energy, gate, run).0,
        trimmed_run(energy, gate, run).1 <= run.1,
        trimmed_run(energy, gate, run).1 - trimmed_run(energy, gate, run).0 >= least(
            MIN_DEAD_SLICES as int,
            run.1 - run.0,
        ),
{
    let b = run_end(energy, run);
    let s = trimmed_start(energy, gate, run);
    lemma_last_loud(energy, gate, run.0 * 2, least(run.0 * 2 + MAX_SHRINK_FRAMES, b));
    lemma_first_loud(energy, gate, most(most(b - MAX_SHRINK_FRAMES, 0), s), b);
}

/// The edge guard does its work: in the stretch it searches from the front, no
/// frame of the trimmed run is loud, unless the run is down to the minimum.
pub proof fn law_trimmed_front_is_quiet(
    energy: Seq<i64>,
    gate: i64,
    run: (usize, usize),
    frame: int,
)
    requires
        trimmed_start(energy, gate, run) <= frame < run.0 * 2 + MAX_SHRINK_FRAMES,
        frame < run_end(energy, run),
        trimmed_start(energy, gate, run) < run_end(energy, run) - MIN_DEAD_FRAMES,
    ensures
        energy[frame] <= gate,
{
    let b = run_end(energy, run);
    lemma_last_loud(energy, gate, run.0 * 2, least(run.0 * 2 + MAX_SHRINK_FRAMES, b));
}

/// The same at the back: in the stretch it searches from the end, no frame of
/// the trimmed run is loud, unless the run is down to the minimum.
pub proof fn law_trimmed_back_is_quiet(
    energy: Seq<i64>,
    gate: i64,
    run: (usize, usize),
    frame: int,
)
    requires
        trimmed_start(energy, gate, run) <= frame < trimmed_end(energy, gate, run),
        run_end(energy, run) - MAX_SHRINK_FRAMES <= frame,
        trimmed_end(energy, gate, run) > trimmed_start(energy, gate, run) + MIN_DEAD_FRAMES,
    ensures
        energy[frame] <= gate,
{
    let b = run_end(energy, run);
    let s = trimmed_start(energy, gate, run);
    lemma_last_loud(energy, gate, run.0 * 2, least(run.0 * 2 + MAX_SHRINK_FRAMES, b));
    lemma_first_loud(energy, gate, most(most(b - MAX_SHRINK_FRAMES, 0), s), b);
}

// ---------------------------------------------------------------------------
// What bridging leaves
// ---------------------------------------------------------------------------
/// The runs that bridging leaves are in order, and every slice in them is
/// silent: a join never swallows a word.
pub proof fn law_bridging_keeps_speech(speech: Seq<bool>, ranges: Seq<(usize, usize)>)
    requires
        speech.len() <= usize::MAX,
        ordered_runs(ranges, speech.len() as int),
    ensures
        ordered_runs(silent_parts(speech, ranges), speech.len() as int),
        forall|k: int, i: int|
            #![trigger silent_parts(speech, ranges)[k], speech[i]]
            0 <= k < silent_parts(speech, ranges).len() && silent_parts(speech, ranges)[k].0 <= i
                < silent_parts(speech, ranges)[k].1 ==> !speech[i],
        forall|k: int|
            0 <= k < silent_parts(speech, ranges).len() ==> ranges.len() > 0 && (
            #[trigger] silent_parts(speech, ranges)[k]).1 <= ranges.last().1,
    decreases ranges.len(),
{
    if ranges.len() > 0 {
        let front = ranges.drop_last();
        let n = speech.len() as int;
        assert forall|k: int| 0 <= k < front.len() implies (#[trigger] front[k]).0 <= front[k].1
            <= n by {
            assert(ranges[k].0 <= ranges[k].1);
        }
        law_bridging_keeps_speech(speech, front);
        let x = ranges.last();
        assert(ranges[ranges.len() - 1].0 <= ranges[ranges.len() - 1].1 <= n);
        let inv = inverted(speech);
        lemma_runs_between(inv, x.0 as int, x.1 as int);
        let a = silent_parts(speech, front);
        let b = runs_between(inv, x.0 as int, x.1 as int);
        let s = silent_parts(speech, ranges);
        assert(s == a + b);
        if front.len() > 0 {
            assert(ranges[front.len() - 1].1 <= ranges[ranges.len() - 1].0);
        }
        assert forall|k: int| 0 <= k < s.len() implies (#[trigger] s[k]).0 <= s[k].1 <= n && s[k].1
            <= x.1 by {
            if k < a.len() {
                assert(s[k] == a[k]);
            } else {
                assert(s[k] == b[k - a.len()]);
            }
        }
        assert forall|k: int, l: int| 0 <= k < l < s.len() implies (#[trigger] s[k]).1 <= (
        #[trigger] s[l]).0 by {
            if l < a.len() {
                assert(a[k].1 <= a[l].0);
            } else if k >= a.len() {
                assert(b[k - a.len()].1 < b[l - a.len()].0);
            } else {
                assert(a[k].1 <= front.last().1);
                assert(x.0 <= b[l - a.len()].0);
            }
        }
        assert forall|k: int, i: int|
            #![trigger s[k], speech[i]]
            0 <= k < s.len() && s[k].0 <= i < s[k].1 implies !speech[i] by {
            if k < a.len() {
                assert(s[k] == a[k]);
            } else {
                assert(s[k] == b[k - a.len()]);
                assert(inv[i]);
            }
        }
    }
}

/// Bridging loses nothing: a silent slice inside one of the joined ranges is
/// still inside a run.
pub proof fn law_bridging_keeps_silence(
    speech: Seq<bool>,
    ranges: Seq<(usize, usize)>,
    r: int,
    i: int,
)
    requires
        speech.len() <= usize::MAX,
        ordered_runs(ranges, speech.len() as int),
        0 <= r < ranges.len(),
        ranges[r].0 <= i < ranges[r].1,
        !speech[i],
    ensures
        exists|k: int|
            0 <= k < silent_parts(speech, ranges).len() && (#[trigger] silent_parts(
                speech,
                ranges,
            )[k]).0 <= i < silent_parts(speech, ranges)[k].1,
    decreases ranges.len(),
{
    let front = ranges.drop_last();
    let n = speech.len() as int;
    let a = silent_parts(speech, front);
    let inv = inverted(speech);
    let x = ranges.last();
    let b = runs_between(inv, x.0 as int, x.1 as int);
    let s = silent_parts(speech, ranges);
    assert(s == a + b);
    if r < front.len() {
        assert forall|k: int| 0 <= k < front.len() implies (#[trigger] front[k]).0 <= front[k].1
            <= n by {
            assert(ranges[k].0 <= ranges[k].1);
        }
        law_bridging_keeps_silence(speech, front, r, i);
        let k = choose|k: int| 0 <= k < a.len() && (#[trigger] a[k]).0 <= i < a[k].1;
        assert(s[k] == a[k]);
    } else {
        assert(ranges[ranges.len() - 1].0 <= ranges[ranges.len() - 1].1 <= n);
        lemma_runs_between(inv, x.0 as int, x.1 as int);
        assert(inv[i]);
        let k = choose|k: int| 0 <= k < b.len() && (#[trigger] b[k]).0 <= i < b[k].1;
        assert(s[a.len() + k] == b[k]);
    }
}

/// The runs of at least `min` slices.
pub open spec fn runs_at_least(runs: Seq<(usize, usize)>, min: int) -> Seq<(usize, usize)>
    decreases runs.len(),
{
    if runs.len() == 0 {
        Seq::empty()
    } else {
        let r = runs_at_least(runs.drop_last(), min);
        if runs.last().1 - runs.last().0 >= min {
            r.push(runs.last())
        } else {
            r
        }
    }
}

proof fn lemma_runs_at_least(runs: Seq<(usize, usize)>, min: int, n: int)
    requires
        ordered_runs(runs, n),
    ensures
        ordered_runs(runs_at_least(runs, min), n),
        forall|k: int|
            0 <= k < runs_at_least(runs, min).len() ==> (#[trigger] runs_at_least(runs, min)[k]).1
                - runs_at_least(runs, min)[k].0 >= min,
        runs_at_least(runs, min).len() > 0 ==> runs.len() > 0 && runs_at_least(runs, min).last().1
            <= runs.last().1,
    decreases runs.len(),
{
    if runs.len() > 0 {
        let front = runs.drop_last();
        assert forall|k: int| 0 <= k < front.len() implies (#[trigger] front[k]).0 <= front[k].1
            <= n by {
            assert(runs[k].0 <= runs[k].1);
        }
        lemma_runs_at_least(front, min, n);
        let r = runs_at_least(front, min);
        let s = runs_at_least(runs, min);
        let x = runs.last();
        assert(runs[runs.len() - 1].0 <= runs[runs.len() - 1].1 <= n);
        if front.len() > 0 {
            assert(runs[front.len() - 1].1 <= runs[runs.len() - 1].0);
        }
        assert forall|k: int, l: int| 0 <= k < l < s.len() implies (#[trigger] s[k]).1 <= (
        #[trigger] s[l]).0 by {
            if l < r.len() {
                assert(r[k].1 <= r[l].0);
            } else {
                if k < r.len() - 1 {
                    assert(r[k].1 <= r[r.len() - 1].0);
                    assert(r[r.len() - 1].0 <= r[r.len() - 1].1);
                }
            }
        }
    }
}

/// Keeps the runs of at least `min` slices.
pub fn long_runs(runs: &Vec<(usize, usize)>, min: usize) -> (out: Vec<(usize, usize)>)
    requires
        forall|k: int| 0 <= k < runs@.len() ==> (#[trigger] runs@[k]).0 <= runs@[k].1,
    ensures
        out@ == runs_at_least(runs@, min as int),
{
    let mut out: Vec<(usize, usize)> = Vec::new();
    let mut k: usize = 0;
    while k < runs.len()
        invariant
            k <= runs@.len(),
            forall|k: int| 0 <= k < runs@.len() ==> (#[trigger] runs@[k]).0 <= runs@[k].1,
            out@ == runs_at_least(runs@.take(k as int), min as int),
        decreases runs@.len() - k,
    {
        assert(runs@.take(k + 1).drop_last() == runs@.take(k as int));
        if runs[k].1 - runs[k].0 >= min {
            out.push(runs[k]);
        }
        k += 1;
    }
    assert(runs@.take(k as int) == runs@);
    out
}

// ---------------------------------------------------------------------------
// Sped-up sections
// ---------------------------------------------------------------------------
/// Dead runs of at least this are sped up rather than collapsed.
pub const SPEED_FROM_US: i64 = 4_000_000;

/// The start, to the nearest second, of each run long enough to be sped up.
pub open spec fn starts_of_long(runs: Seq<(usize, usize)>) -> Seq<i64>
    decreases runs.len(),
{
    if runs.len() == 0 {
        Seq::empty()
    } else {
        let r = starts_of_long(runs.drop_last());
        if slices_us(runs.last().1 - runs.last().0) >= SPEED_FROM_US {
            r.push(((slices_us(runs.last().0 as int) + 500_000) / 1_000_000) as i64)
        } else {
            r
        }
    }
}

/// The dead runs of at least `min` slices, bridged.
pub open spec fn kept_runs(speech: Seq<bool>, frozen: Seq<bool>, min: int) -> Seq<(usize, usize)> {
    runs_at_least(
        silent_parts(speech, joined_runs(runs(dead_mask(speech, frozen)), DEAD_BRIDGE_US as int)),
        min,
    )
}

/// The trimmed dead runs of at least the minimum length.
pub open spec fn candidate_runs(speech: Seq<bool>, frozen: Seq<bool>, energy: Seq<i64>) -> Seq<
    (usize, usize),
> {
    trimmed_runs(energy, GATE_DB, kept_runs(speech, frozen, MIN_DEAD_SLICES as int))
}

/// A trimmed run comes out the right way round.
proof fn lemma_trimmed_order(energy: Seq<i64>, gate: i64, run: (usize, usize), grid_len: int)
    requires
        energy.len() + 30 >= 2 * grid_len,
        run.0 + 15 <= run.1 <= grid_len,
        2 * grid_len + 400 <= usize::MAX,
    ensures
        run.0 <= trimmed_run(energy, gate, run).0 <= trimmed_run(energy, gate, run).1 <= run.1,
{
    let b = run_end(energy, run);
    let s = trimmed_start(energy, gate, run);
    lemma_last_loud(energy, gate, run.0 * 2, least(run.0 * 2 + MAX_SHRINK_FRAMES, b));
    lemma_first_loud(energy, gate, most(most(b - MAX_SHRINK_FRAMES, 0), s), b);
}

proof fn lemma_kept_runs(speech: Seq<bool>, frozen: Seq<bool>, min: int)
    requires
        speech.len() <= usize::MAX,
    ensures
        ordered_runs(runs(dead_mask(speech, frozen)), speech.len() as int),
        ordered_runs(
            silent_parts(
                speech,
                joined_runs(runs(dead_mask(speech, frozen)), DEAD_BRIDGE_US as int),
            ),
            speech.len() as int,
        ),
        ordered_runs(kept_runs(speech, frozen, min), speech.len() as int),
        forall|k: int|
            0 <= k < kept_runs(speech, frozen, min).len() ==> (#[trigger] kept_runs(
                speech,
                frozen,
                min,
            )[k]).0 + min <= kept_runs(speech, frozen, min)[k].1,
{
    let n = speech.len() as int;
    let dead = runs(dead_mask(speech, frozen));
    lemma_runs_between(dead_mask(speech, frozen), 0, n);
    assert(ordered_runs(dead, n)) by {
        assert forall|k: int| 0 <= k < dead.len() implies (#[trigger] dead[k]).0 <= dead[k].1
            <= n by {}
        assert forall|k: int, l: int| 0 <= k < l < dead.len() implies (#[trigger] dead[k]).1 <= (
        #[trigger] dead[l]).0 by {}
    }
    lemma_joined_runs(dead, DEAD_BRIDGE_US as int, n);
    let ranges = joined_runs(dead, DEAD_BRIDGE_US as int);
    law_bridging_keeps_speech(speech, ranges);
    lemma_runs_at_least(silent_parts(speech, ranges), min, n);
}

/// The dead runs that the planner works on: bridged, no shorter than the pause
/// floor, their edges cut back from speech.
pub fn plan_runs(
    speech: &Vec<bool>,
    frozen: &Vec<bool>,
    energy: &Vec<i64>,
    pause_floor_us: i64,
) -> (out: Vec<(usize, usize)>)
    requires
        forall|i: int| frozen@.len() <= i < speech@.len() ==> #[trigger] speech@[i],
        2 * speech@.len() + 400 <= usize::MAX,
        energy@.len() + 30 >= 2 * speech@.len(),
        300_000 <= pause_floor_us <= 1_500_000,
    ensures
        out@ == trimmed_runs(
            energy@,
            GATE_DB,
            kept_runs(speech@, frozen@, whole_slices(pause_floor_us as int)),
        ),
        forall|k: int|
            0 <= k < out@.len() ==> (#[trigger] out@[k]).0 <= out@[k].1 <= speech@.len(),
{
    let ghost n = speech@.len() as int;
    let min: usize = us_to_slices(pause_floor_us) as usize;
    proof {
        lemma_kept_runs(speech@, frozen@, min as int);
    }
    let dead = dead_runs(speech, frozen);
    let parts = bridge_dead(&dead, speech, DEAD_BRIDGE_US);
    let kept = long_runs(&parts, min);
    proof {
        assert forall|k: int| 0 <= k < kept@.len() implies trimmed_run(
            energy@,
            GATE_DB,
            #[trigger] kept@[k],
        ).0 <= trimmed_run(energy@, GATE_DB, kept@[k]).1 <= n by {
            lemma_trimmed_order(energy@, GATE_DB, kept@[k], n);
        }
    }
    trim_edges(&kept, energy, GATE_DB)
}

/// Start times, in whole source seconds, of the sped-up sections that a speech
/// mask would produce. Calibration compares this list across its sweep.
pub fn speedup_starts(speech: &Vec<bool>, frozen: &Vec<bool>, energy_sm: &Vec<i64>) -> (out: Vec<
    i64,
>)
    requires
        forall|i: int| frozen@.len() <= i < speech@.len() ==> #[trigger] speech@[i],
        2 * speech@.len() + 400 <= usize::MAX,
        energy_sm@.len() + 30 >= 2 * speech@.len(),
    ensures
        out@ == starts_of_long(candidate_runs(speech@, frozen@, energy_sm@)),
{
    let ghost n = speech@.len() as int;
    let total: usize = speech.len();
    assert(whole_slices(MIN_DEAD_US as int) == MIN_DEAD_SLICES);
    let runs = plan_runs(speech, frozen, energy_sm, MIN_DEAD_US);
    let mut out: Vec<i64> = Vec::new();
    let mut k: usize = 0;
    while k < runs.len()
        invariant
            k <= runs@.len(),
            n == total,
            forall|k: int| 0 <= k < runs@.len() ==> (#[trigger] runs@[k]).0 <= runs@[k].1 <= n,
            out@ == starts_of_long(runs@.take(k as int)),
        decreases runs@.len() - k,
    {
        assert(runs@.take(k + 1).drop_last() == runs@.take(k as int));
        let a: usize = runs[k].0;
        let b: usize = runs[k].1;
        if slices_to_us(b - a) >= SPEED_FROM_US as i128 {
            let us: i128 = slices_to_us(a);
            assert(us <= 0xffff_ffff_ffff_ffff * 20_000);
            let secs: i128 = (us + 500_000) / 1_000_000;
            out.push(secs as i64);
        }
        k += 1;
    }
    assert(runs@.take(k as int) == runs@);
    out
}

/// How many sections would be sped up.
pub fn count_speedups(speech: &Vec<bool>, frozen: &Vec<bool>, energy_sm: &Vec<i64>) -> (n: usize)
    requires
        forall|i: int| frozen@.len() <= i < speech@.len() ==> #[trigger] speech@[i],
        2 * speech@.len() + 400 <= usize::MAX,
        energy_sm@.len() + 30 >= 2 * speech@.len(),
    ensures
        n == starts_of_long(candidate_runs(speech@, frozen@, energy_sm@)).len(),
{
    speedup_starts(speech, frozen, energy_sm).len()
}

// ---------------------------------------------------------------------------
// What the planner is given
// ---------------------------------------------------------------------------
/// No slice of the runs is speech.
pub open spec fn all_silent(speech: Seq<bool>, runs: Seq<(usize, usize)>) -> bool {
    forall|k: int, i: int|
        #![trigger runs[k], speech[i]]
        0 <= k < runs.len() && runs[k].0 <= i < runs[k].1 ==> !speech[i]
}

proof fn lemma_long_runs_silent(speech: Seq<bool>, runs: Seq<(usize, usize)>, min: int)
    requires
        all_silent(speech, runs),
    ensures
        all_silent(speech, runs_at_least(runs, min)),
    decreases runs.len(),
{
    if runs.len() > 0 {
        let front = runs.drop_last();
        assert(forall|k: int| 0 <= k < front.len() ==> #[trigger] front[k] == runs[k]);
        lemma_long_runs_silent(speech, front, min);
        assert(runs.last() == runs[runs.len() - 1]);
    }
}

/// The planner is given silence only: no slice of a run that it may collapse or
/// speed up is speech, whatever the pause floor. With energy frames for the
/// whole grid, each run also keeps the minimum length, or the pause floor where
/// that is less.
pub proof fn law_planned_runs_are_silent(
    speech: Seq<bool>,
    frozen: Seq<bool>,
    energy: Seq<i64>,
    min: int,
)
    requires
        2 * speech.len() + 400 <= usize::MAX,
        2 * speech.len() <= energy.len() + 30 <= usize::MAX,
        min >= 15,
    ensures
        ({
            let planned = trimmed_runs(energy, GATE_DB, kept_runs(speech, frozen, min));
            &&& all_silent(speech, planned)
            &&& ordered_runs(planned, speech.len() as int)
            &&& 2 * speech.len() <= energy.len() ==> forall|k: int|
                0 <= k < planned.len() ==> (#[trigger] planned[k]).1 - planned[k].0 >= least(
                    MIN_DEAD_SLICES as int,
                    min,
                )
        }),
{
    let kept = kept_runs(speech, frozen, min);
    let planned = trimmed_runs(energy, GATE_DB, kept);
    let n = speech.len() as int;
    lemma_kept_runs(speech, frozen, min);
    let ranges = joined_runs(runs(dead_mask(speech, frozen)), DEAD_BRIDGE_US as int);
    lemma_joined_runs(runs(dead_mask(speech, frozen)), DEAD_BRIDGE_US as int, n);
    law_bridging_keeps_speech(speech, ranges);
    let parts = silent_parts(speech, ranges);
    assert(all_silent(speech, parts));
    lemma_long_runs_silent(speech, parts, min);
    assert forall|k: int| 0 <= k < kept.len() implies kept[k].0 <= (#[trigger] planned[k]).0
        && planned[k].0 <= planned[k].1 <= kept[k].1 by {
        assert(kept[k].0 + min <= kept[k].1 <= n);
        lemma_trimmed_order(energy, GATE_DB, kept[k], n);
    }
    if 2 * speech.len() <= energy.len() {
        assert forall|k: int| 0 <= k < planned.len() implies (#[trigger] planned[k]).1
            - planned[k].0 >= least(MIN_DEAD_SLICES as int, min) by {
            assert(kept[k].0 + min <= kept[k].1 <= n);
            law_trimming_keeps_the_minimum(energy, GATE_DB, kept[k]);
        }
    }
    assert forall|k: int, l: int| 0 <= k < l < planned.len() implies (#[trigger] planned[k]).1 <= (
    #[trigger] planned[l]).0 by {
        assert(kept[k].1 <= kept[l].0);
        assert(kept[l].0 <= planned[l].0);
    }
    assert forall|k: int| 0 <= k < planned.len() implies (#[trigger] planned[k]).0 <= planned[k].1
        <= n by {
        assert(kept[k].1 <= n);
    }
    assert forall|k: int, i: int|
        #![trigger planned[k], speech[i]]
        0 <= k < planned.len() && planned[k].0 <= i < planned[k].1 implies !speech[i] by {
        assert(kept[k].0 <= planned[k].0);
        assert(kept[k].0 <= i < kept[k].1);
    }
}

// ---------------------------------------------------------------------------
// Laws
// ---------------------------------------------------------------------------
/// The slice lies between two neighbouring runs that are less than `gap` apart.
pub open spec fn in_short_gap(runs: Seq<(usize, usize)>, gap: int, i: int) -> bool {
    exists|k: int, l: int|
        0 <= k && l == k + 1 && l < runs.len() && (#[trigger] runs[k]).1 <= i < (
        #[trigger] runs[l]).0 && 20_000 * (runs[l].0 - runs[k].1) < gap
}

/// Joining fills the gaps that are too short and nothing else: a slice is in a
/// joined run exactly when it was in a run or in such a gap. A slice is 20 ms.
pub proof fn law_joining_fills_short_gaps(runs: Seq<(usize, usize)>, gap: int, n: int, i: int)
    requires
        ordered_runs(runs, n),
    ensures
        in_runs(joined_runs(runs, gap), i) <==> in_runs(runs, i) || in_short_gap(runs, gap, i),
    decreases runs.len(),
{
    if runs.len() > 0 {
        let front = runs.drop_last();
        let last = front.len() as int;
        assert forall|k: int| 0 <= k < front.len() implies (#[trigger] front[k]).0 <= front[k].1
            <= n by {
            assert(runs[k].0 <= runs[k].1);
        }
        assert(ordered_runs(front, n));
        law_joining_fills_short_gaps(front, gap, n, i);
        lemma_joined_runs(front, gap, n);
        let r = joined_runs(front, gap);
        let s = joined_runs(runs, gap);
        let x = runs[last];
        assert(x == runs.last());
        if in_runs(front, i) {
            let k = choose|k: int| 0 <= k < front.len() && (#[trigger] front[k]).0 <= i < front[k].1;
            assert(runs[k] == front[k]);
            assert(in_runs(runs, i));
        }
        if in_short_gap(front, gap, i) {
            let (k, l) = choose|k: int, l: int|
                0 <= k && l == k + 1 && l < front.len() && (#[trigger] front[k]).1 <= i < (
                #[trigger] front[l]).0 && 20_000 * (front[l].0 - front[k].1) < gap;
            assert(runs[k] == front[k] && runs[l] == front[l]);
            assert(in_short_gap(runs, gap, i));
        }
        if in_short_gap(runs, gap, i) {
            let (k, l) = choose|k: int, l: int|
                0 <= k && l == k + 1 && l < runs.len() && (#[trigger] runs[k]).1 <= i < (
                #[trigger] runs[l]).0 && 20_000 * (runs[l].0 - runs[k].1) < gap;
            assert(front[k] == runs[k]);
            if l < last {
                assert(front[l] == runs[l]);
                assert(in_short_gap(front, gap, i));
            }
        }
        if in_runs(runs, i) {
            let k = choose|k: int| 0 <= k < runs.len() && (#[trigger] runs[k]).0 <= i < runs[k].1;
            if k < last {
                assert(front[k] == runs[k]);
                assert(in_runs(front, i));
            }
        }
        if x.0 <= i < x.1 {
            assert(runs[last].0 <= i < runs[last].1);
            assert(in_runs(runs, i));
        }
        let joins = r.len() > 0 && slices_us(x.0 - r.last().1) < gap;
        if r.len() > 0 {
            assert(front.len() > 0);
            assert(r.last().1 == front.last().1);
            assert(runs[last - 1].1 <= runs[last].0);
            assert(r[r.len() - 1].0 <= r[r.len() - 1].1);
        }
        if in_runs(r, i) {
            let k = choose|k: int| 0 <= k < r.len() && (#[trigger] r[k]).0 <= i < r[k].1;
            if joins && k == r.len() - 1 {
                assert(s[k].0 <= i < s[k].1);
            } else {
                assert(s[k] == r[k]);
            }
            assert(in_runs(s, i));
        }
        if x.0 <= i < x.1 {
            assert(s[s.len() - 1].0 <= i < s[s.len() - 1].1);
            assert(in_runs(s, i));
        }
        if joins && r.last().1 <= i < x.0 {
            assert(s[s.len() - 1].0 <= i < s[s.len() - 1].1);
            assert(in_runs(s, i));
            assert(runs[last - 1].1 <= i < runs[last].0);
            assert(in_short_gap(runs, gap, i));
        }
        if in_runs(s, i) {
            let k = choose|k: int| 0 <= k < s.len() && (#[trigger] s[k]).0 <= i < s[k].1;
            if k < s.len() - 1 {
                assert(r[k] == s[k]);
                assert(in_runs(r, i));
            } else if joins {
                if i < r.last().1 {
                    assert(r[r.len() - 1].0 <= i < r[r.len() - 1].1);
                    assert(in_runs(r, i));
                }
            }
        }
        if !joins && in_short_gap(runs, gap, i) && !in_short_gap(front, gap, i) {
            let (k, l) = choose|k: int, l: int|
                0 <= k && l == k + 1 && l < runs.len() && (#[trigger] runs[k]).1 <= i < (
                #[trigger] runs[l]).0 && 20_000 * (runs[l].0 - runs[k].1) < gap;
            assert(l == last);
            assert(front.last() == runs[k]);
        }
    }
}

/// What is left of the runs after joining lies apart: by the gap or more.
pub proof fn law_joined_runs_lie_apart(runs: Seq<(usize, usize)>, gap: int, n: int)
    requires
        ordered_runs(runs, n),
    ensures
        forall|k: int, l: int|
            0 <= k && l == k + 1 && l < joined_runs(runs, gap).len() ==> 20_000 * ((
            #[trigger] joined_runs(runs, gap)[l]).0 - (#[trigger] joined_runs(runs, gap)[k]).1)
                >= gap,
    decreases runs.len(),
{
    if runs.len() > 0 {
        let front = runs.drop_last();
        assert forall|k: int| 0 <= k < front.len() implies (#[trigger] front[k]).0 <= front[k].1
            <= n by {
            assert(runs[k].0 <= runs[k].1);
        }
        assert(ordered_runs(front, n));
        law_joined_runs_lie_apart(front, gap, n);
        let r = joined_runs(front, gap);
        let s = joined_runs(runs, gap);
        assert forall|k: int, l: int| 0 <= k && l == k + 1 && l < s.len() implies 20_000 * ((
        #[trigger] s[l]).0 - (#[trigger] s[k]).1) >= gap by {
            assert(s[k] == r[k]);
            if l < r.len() {
                assert(s[l].0 == r[l].0);
            }
        }
    }
}

/// Of the runs, those stay that are long enough, and no others.
pub proof fn law_only_long_runs_stay(runs: Seq<(usize, usize)>, min: int, r: (usize, usize))
    ensures
        runs_at_least(runs, min).contains(r) <==> runs.contains(r) && r.1 - r.0 >= min,
    decreases runs.len(),
{
    if runs.len() > 0 {
        let front = runs.drop_last();
        law_only_long_runs_stay(front, min, r);
        let (a, b) = (runs_at_least(front, min), runs_at_least(runs, min));
        let x = runs[runs.len() - 1];
        if runs.contains(r) {
            let k = choose|k: int| 0 <= k < runs.len() && runs[k] == r;
            if k < front.len() {
                assert(front[k] == r);
            }
        }
        if front.contains(r) {
            let k = choose|k: int| 0 <= k < front.len() && front[k] == r;
            assert(runs[k] == r);
        }
        if a.contains(r) {
            let k = choose|k: int| 0 <= k < a.len() && a[k] == r;
            assert(b[k] == r);
        }
        if b.contains(r) {
            let k = choose|k: int| 0 <= k < b.len() && b[k] == r;
            if k < a.len() {
                assert(a[k] == r);
            }
        }
        if x == r && x.1 - x.0 >= min {
            assert(b[b.len() - 1] == r);
        }
    } else {
        assert(!runs.contains(r));
        assert(!runs_at_least(runs, min).contains(r));
    }
}

/// Stretches in which nobody speaks and nothing moves reach the planner: where
/// the pause floor is `min` slices, every slice of such a stretch of `min` or
/// more is in one of the runs that are kept, and every run that is kept lasts
/// `min` slices or more.
pub proof fn law_long_dead_air_is_kept(
    speech: Seq<bool>,
    frozen: Seq<bool>,
    min: int,
    a: int,
    b: int,
    i: int,
)
    requires
        speech.len() <= usize::MAX,
        0 <= a <= i < b <= speech.len(),
        b - a >= min,
        forall|k: int| a <= k < b ==> !(#[trigger] speech[k]) && frozen[k],
    ensures
        in_runs(kept_runs(speech, frozen, min), i),
        forall|k: int|
            0 <= k < kept_runs(speech, frozen, min).len() ==> (#[trigger] kept_runs(
                speech,
                frozen,
                min,
            )[k]).1 - kept_runs(speech, frozen, min)[k].0 >= min,
{
    let n = speech.len() as int;
    let dead = runs(dead_mask(speech, frozen));
    lemma_kept_runs(speech, frozen, min);
    let ranges = joined_runs(dead, DEAD_BRIDGE_US as int);
    lemma_joined_runs(dead, DEAD_BRIDGE_US as int, n);
    assert forall|k: int| a <= k < b implies in_runs(ranges, k) by {
        assert(!speech[k]);
        law_dead_runs_hold_dead_slices(speech, frozen, k);
        law_joining_fills_short_gaps(dead, DEAD_BRIDGE_US as int, n, k);
    }
    law_joined_runs_lie_apart(dead, DEAD_BRIDGE_US as int, n);
    let q = choose|q: int| 0 <= q < ranges.len() && (#[trigger] ranges[q]).0 <= i < ranges[q].1;
    assert(in_runs(ranges, i));
    lemma_stretch_in_one_run(ranges, n, a, b, i, q);
    let x = ranges[q];
    let inv = inverted(speech);
    let part = runs_between(inv, x.0 as int, x.1 as int);
    lemma_runs_between(inv, x.0 as int, x.1 as int);
    assert(inv[i]);
    let k = choose|k: int| 0 <= k < part.len() && (#[trigger] part[k]).0 <= i < part[k].1;
    assert forall|m: int| a <= m < b implies in_runs(part, m) by {
        assert(!speech[m]);
        assert(inv[m]);
        let l = choose|l: int| 0 <= l < part.len() && (#[trigger] part[l]).0 <= m < part[l].1;
    }
    lemma_stretch_in_one_part(part, a, b, i, k);
    lemma_part_is_there(speech, ranges, q, part[k]);
    let parts = silent_parts(speech, ranges);
    law_only_long_runs_stay(parts, min, part[k]);
    let kept = kept_runs(speech, frozen, min);
    let z = choose|z: int| 0 <= z < kept.len() && kept[z] == part[k];
    assert(kept[z].0 <= i < kept[z].1);
}

proof fn lemma_stretch_in_one_run(
    rs: Seq<(usize, usize)>,
    n: int,
    a: int,
    b: int,
    i: int,
    q: int,
)
    requires
        ordered_runs(rs, n),
        forall|k: int, l: int|
            0 <= k && l == k + 1 && l < rs.len() ==> 20_000 * ((#[trigger] rs[l]).0 - (
            #[trigger] rs[k]).1) >= 2_000_000,
        a <= i < b,
        forall|k: int| a <= k < b ==> in_runs(rs, k),
        0 <= q < rs.len(),
        rs[q].0 <= i < rs[q].1,
    ensures
        rs[q].0 <= a,
        b <= rs[q].1,
{
    if a < rs[q].0 {
        let k = rs[q].0 - 1;
        assert(in_runs(rs, k));
        let l = choose|l: int| 0 <= l < rs.len() && (#[trigger] rs[l]).0 <= k < rs[l].1;
        if l > q {
            assert(rs[q].1 <= rs[l].0);
        } else if l < q - 1 {
            assert(rs[l].1 <= rs[q - 1].0);
            assert(rs[q - 1].0 <= rs[q - 1].1);
            assert(rs[q - 1].1 <= rs[q].0);
        }
    }
    if rs[q].1 < b {
        let k = rs[q].1 as int;
        assert(in_runs(rs, k));
        let l = choose|l: int| 0 <= l < rs.len() && (#[trigger] rs[l]).0 <= k < rs[l].1;
        if l < q {
            assert(rs[l].1 <= rs[q].0);
        } else if l > q + 1 {
            assert(rs[q + 1].1 <= rs[l].0);
            assert(rs[q + 1].0 <= rs[q + 1].1);
        }
        if l > q {
            assert(rs[q + 1].0 - rs[q].1 >= 100);
        }
    }
}

proof fn lemma_stretch_in_one_part(rs: Seq<(usize, usize)>, a: int, b: int, i: int, q: int)
    requires
        forall|k: int| 0 <= k < rs.len() ==> (#[trigger] rs[k]).0 < rs[k].1,
        forall|k: int, l: int| 0 <= k < l < rs.len() ==> (#[trigger] rs[k]).1 < (#[trigger] rs[l]).0,
        a <= i < b,
        forall|k: int| a <= k < b ==> in_runs(rs, k),
        0 <= q < rs.len(),
        rs[q].0 <= i < rs[q].1,
    ensures
        rs[q].0 <= a,
        b <= rs[q].1,
{
    if a < rs[q].0 {
        let k = rs[q].0 - 1;
        assert(in_runs(rs, k));
        let l = choose|l: int| 0 <= l < rs.len() && (#[trigger] rs[l]).0 <= k < rs[l].1;
        if l > q {
            assert(rs[q].1 < rs[l].0);
        } else if l < q {
            assert(rs[l].1 < rs[q].0);
        }
    }
    if rs[q].1 < b {
        let k = rs[q].1 as int;
        assert(in_runs(rs, k));
        let l = choose|l: int| 0 <= l < rs.len() && (#[trigger] rs[l]).0 <= k < rs[l].1;
        if l < q {
            assert(rs[l].1 < rs[q].0);
        } else if l > q {
            assert(rs[q].1 < rs[l].0);
        }
    }
}

proof fn lemma_part_is_there(
    speech: Seq<bool>,
    ranges: Seq<(usize, usize)>,
    q: int,
    r: (usize, usize),
)
    requires
        0 <= q < ranges.len(),
        runs_between(inverted(speech), ranges[q].0 as int, ranges[q].1 as int).contains(r),
    ensures
        silent_parts(speech, ranges).contains(r),
    decreases ranges.len(),
{
    let front = ranges.drop_last();
    let a = silent_parts(speech, front);
    let all = silent_parts(speech, ranges);
    if q < front.len() {
        assert(front[q] == ranges[q]);
        lemma_part_is_there(speech, front, q, r);
        let k = choose|k: int| 0 <= k < a.len() && a[k] == r;
        assert(all[k] == r);
    } else {
        let b = runs_between(inverted(speech), ranges[q].0 as int, ranges[q].1 as int);
        let k = choose|k: int| 0 <= k < b.len() && b[k] == r;
        assert(all[a.len() + k] == r);
    }
}

/// The front of a run is cut back to 0.15 s past the last frame above the threshold
/// in its first 3 s, but no further than leaves a second of it. With no such
/// frame it stays. Energy frames are 10 ms, two to a slice; `last` is that
/// frame and `b` where the run ends.
pub proof fn law_the_front_is_cut_back_past_the_last_loud_frame(
    energy: Seq<i64>,
    gate: i64,
    run: (usize, usize),
    last: int,
    b: int,
)
    requires
        b <= 2 * run.1,
        b <= energy.len(),
        b == 2 * run.1 || b == energy.len(),
        2 * run.0 <= last < 2 * run.0 + 300,
        last < b,
        energy[last] > gate,
        forall|k: int| last < k < 2 * run.0 + 300 && k < b ==> #[trigger] energy[k] <= gate,
    ensures
        ({
            let s = trimmed_start(energy, gate, run);
            &&& s >= 2 * run.0
            &&& s <= last + 15
            &&& s == last + 15 || s == b - 100 || s == 2 * run.0
            &&& last + 15 <= b - 100 ==> s == last + 15
            &&& 2 * run.0 <= b - 100 < last + 15 ==> s == b - 100
        }),
{
    let end = least(run.0 * 2 + MAX_SHRINK_FRAMES, run_end(energy, run));
    lemma_last_loud(energy, gate, run.0 * 2, end);
    assert(end <= run.0 * 2 + 300 && end <= b);
    match last_loud(energy, gate, run.0 * 2, end) {
        Some(i) => {
            if i > last {
                assert(energy[i] <= gate);
            }
        },
        None => {
            assert(energy[last] <= gate);
        },
    }
}

/// The back of a run is cut back to 0.15 s before the first frame above the
/// threshold in its last 3 s, but no further than leaves a second of it. With no
/// such frame it stays.
pub proof fn law_the_back_is_cut_back_before_the_first_loud_frame(
    energy: Seq<i64>,
    gate: i64,
    run: (usize, usize),
    first: int,
    b: int,
)
    requires
        b <= 2 * run.1,
        b <= energy.len(),
        b == 2 * run.1 || b == energy.len(),
        b - 300 <= first < b,
        0 <= first,
        trimmed_start(energy, gate, run) <= first,
        energy[first] > gate,
        forall|k: int|
            b - 300 <= k < first && trimmed_start(energy, gate, run) <= k && 0 <= k
                ==> #[trigger] energy[k] <= gate,
    ensures
        ({
            let s = trimmed_start(energy, gate, run);
            let e = trimmed_end(energy, gate, run);
            &&& e >= s + 100
            &&& e == first - 15 || e == s + 100
            &&& first - 15 >= s + 100 ==> e == first - 15
        }),
{
    let s = trimmed_start(energy, gate, run);
    let from = most(most(b - MAX_SHRINK_FRAMES, 0), s);
    assert(run_end(energy, run) == b);
    lemma_first_loud(energy, gate, from, b);
    lemma_last_loud(energy, gate, run.0 * 2, least(run.0 * 2 + MAX_SHRINK_FRAMES, b));
    match first_loud(energy, gate, from, b) {
        Some(i) => {
            if i < first {
                assert(energy[i] <= gate);
            }
        },
        None => {
            assert(energy[first] <= gate);
        },
    }
}

/// A run with nothing above the threshold near its ends stays as it is.
pub proof fn law_quiet_runs_are_not_trimmed(energy: Seq<i64>, gate: i64, run: (usize, usize))
    requires
        run.0 <= run.1,
        run.1 * 2 <= energy.len() <= usize::MAX,
        forall|k: int|
            2 * run.0 <= k < 2 * run.1 && (k < 2 * run.0 + 300 || k >= 2 * run.1 - 300)
                ==> #[trigger] energy[k] <= gate,
    ensures
        trimmed_run(energy, gate, run) == run,
{
    let b = run_end(energy, run);
    let end = least(run.0 * 2 + MAX_SHRINK_FRAMES, b);
    lemma_last_loud(energy, gate, run.0 * 2, end);
    if leading_loud(energy, gate, run) is Some {
        let i = leading_loud(energy, gate, run).unwrap();
        assert(energy[i] <= gate);
    }
    let s = trimmed_start(energy, gate, run);
    assert(s == run.0 * 2);
    let from = most(most(b - MAX_SHRINK_FRAMES, 0), s);
    lemma_first_loud(energy, gate, from, b);
    if first_loud(energy, gate, from, b) is Some {
        let i = first_loud(energy, gate, from, b).unwrap();
        assert(energy[i] <= gate);
    }
}

/// The run lasts four seconds or more.
pub open spec fn is_long(run: (usize, usize)) -> bool {
    20_000 * (run.1 - run.0) >= 4_000_000
}

/// The run starts at that second, to the nearest.
pub open spec fn starts_near(run: (usize, usize), second: i64) -> bool {
    -500_000 <= 20_000 * run.0 - 1_000_000 * second < 500_000
}

/// The sections that are sped up are the runs of four seconds or more, in
/// order, each listed by its start to the nearest second: the list grows by one
/// with every such run, and by none with any other.
pub proof fn law_sped_up_sections_are_the_long_runs(
    runs: Seq<(usize, usize)>,
    next: (usize, usize),
)
    requires
        next.0 <= next.1,
        20_000 * next.1 <= 1_000_000_000_000_000_000,
    ensures
        starts_of_long(Seq::empty()).len() == 0,
        is_long(next) ==> {
            let s = starts_of_long(runs.push(next));
            &&& s.len() == starts_of_long(runs).len() + 1
            &&& s.drop_last() == starts_of_long(runs)
            &&& starts_near(next, s.last())
        },
        !is_long(next) ==> starts_of_long(runs.push(next)) == starts_of_long(runs),
{
    assert(runs.push(next).drop_last() =~= runs);
    if is_long(next) {
        assert(starts_of_long(runs.push(next)).drop_last() =~= starts_of_long(runs));
    }
}

/// The runs whose starts calibration looks at are those of a second or more
/// after gaps of less than two seconds are bridged, trimmed at -38.78 dB.
pub proof fn law_calibration_looks_at_runs_of_a_second(
    speech: Seq<bool>,
    frozen: Seq<bool>,
    energy: Seq<i64>,
    k: int,
)
    requires
        2 * speech.len() + 400 <= usize::MAX,
        0 <= k < candidate_runs(speech, frozen, energy).len(),
    ensures
        candidate_runs(speech, frozen, energy).len() == kept_runs(speech, frozen, 50).len(),
        candidate_runs(speech, frozen, energy)[k] == trimmed_run(
            energy,
            (-38_780_000) as i64,
            kept_runs(speech, frozen, 50)[k],
        ),
{
}

proof fn lemma_silent_part_in_range(
    speech: Seq<bool>,
    ranges: Seq<(usize, usize)>,
    k: int,
    i: int,
)
    requires
        speech.len() <= usize::MAX,
        ordered_runs(ranges, speech.len() as int),
        0 <= k < silent_parts(speech, ranges).len(),
        silent_parts(speech, ranges)[k].0 <= i < silent_parts(speech, ranges)[k].1,
    ensures
        in_runs(ranges, i),
    decreases ranges.len(),
{
    if ranges.len() > 0 {
        let front = ranges.drop_last();
        let n = speech.len() as int;
        let last = ranges.len() - 1;
        assert forall|j: int| 0 <= j < front.len() implies (#[trigger] front[j]).0 <= front[j].1
            <= n by {
            assert(ranges[j].0 <= ranges[j].1);
        }
        assert(ordered_runs(front, n));
        let a = silent_parts(speech, front);
        let x = ranges[last];
        let b = runs_between(inverted(speech), x.0 as int, x.1 as int);
        assert(x.0 <= x.1 <= n);
        lemma_runs_between(inverted(speech), x.0 as int, x.1 as int);
        if k < a.len() {
            assert(silent_parts(speech, ranges)[k] == a[k]);
            lemma_silent_part_in_range(speech, front, k, i);
            let j = choose|j: int| 0 <= j < front.len() && (#[trigger] front[j]).0 <= i < front[j].1;
            assert(ranges[j] == front[j]);
        } else {
            assert(silent_parts(speech, ranges)[k] == b[k - a.len()]);
            assert(ranges[last].0 <= i < ranges[last].1);
        }
    }
}

/// Dead air is bridged over less than two seconds of movement and no more: a
/// slice that is kept is silent, and is still or lies between two dead runs that
/// are less than two seconds apart.
pub proof fn law_dead_air_bridges_under_two_seconds(
    speech: Seq<bool>,
    frozen: Seq<bool>,
    min: int,
    i: int,
)
    requires
        speech.len() <= usize::MAX,
        in_runs(kept_runs(speech, frozen, min), i),
    ensures
        0 <= i < speech.len(),
        !speech[i],
        frozen[i] || in_short_gap(runs(dead_mask(speech, frozen)), 2_000_000, i),
{
    let n = speech.len() as int;
    let dead = runs(dead_mask(speech, frozen));
    lemma_kept_runs(speech, frozen, min);
    let ranges = joined_runs(dead, DEAD_BRIDGE_US as int);
    lemma_joined_runs(dead, DEAD_BRIDGE_US as int, n);
    let parts = silent_parts(speech, ranges);
    let kept = kept_runs(speech, frozen, min);
    let z = choose|z: int| 0 <= z < kept.len() && (#[trigger] kept[z]).0 <= i < kept[z].1;
    law_only_long_runs_stay(parts, min, kept[z]);
    assert(kept.contains(kept[z]));
    let k = choose|k: int| 0 <= k < parts.len() && parts[k] == kept[z];
    law_bridging_keeps_speech(speech, ranges);
    lemma_silent_part_in_range(speech, ranges, k, i);
    assert(parts[k].1 <= n);
    assert(!speech[i]);
    law_joining_fills_short_gaps(dead, 2_000_000, n, i);
    law_dead_runs_hold_dead_slices(speech, frozen, i);
}

/// Where there is no pause floor to speak of, every silent slice between two
/// dead runs that are less than two seconds apart is kept.
pub proof fn law_short_movement_does_not_end_dead_air(
    speech: Seq<bool>,
    frozen: Seq<bool>,
    i: int,
)
    requires
        speech.len() <= usize::MAX,
        0 <= i < speech.len(),
        !speech[i],
        in_short_gap(runs(dead_mask(speech, frozen)), 2_000_000, i),
    ensures
        in_runs(kept_runs(speech, frozen, 0), i),
{
    let n = speech.len() as int;
    let dead = runs(dead_mask(speech, frozen));
    lemma_kept_runs(speech, frozen, 0);
    let ranges = joined_runs(dead, DEAD_BRIDGE_US as int);
    lemma_joined_runs(dead, DEAD_BRIDGE_US as int, n);
    law_joining_fills_short_gaps(dead, 2_000_000, n, i);
    assert(in_runs(ranges, i));
    let r = choose|r: int| 0 <= r < ranges.len() && (#[trigger] ranges[r]).0 <= i < ranges[r].1;
    law_bridging_keeps_silence(speech, ranges, r, i);
    law_bridging_keeps_speech(speech, ranges);
    let parts = silent_parts(speech, ranges);
    let k = choose|k: int| 0 <= k < parts.len() && (#[trigger] parts[k]).0 <= i < parts[k].1;
    law_only_long_runs_stay(parts, 0, parts[k]);
    assert(parts.contains(parts[k]));
    let kept = kept_runs(speech, frozen, 0);
    let z = choose|z: int| 0 <= z < kept.len() && kept[z] == parts[k];
    assert(kept[z].0 <= i < kept[z].1);
}

} // verus!
