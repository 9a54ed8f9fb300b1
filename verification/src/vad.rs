//! From speech probabilities to the speech mask.
use vstd::prelude::*;

use crate::constants::{
    BRIDGE_GAP_US, GRID_US, MIN_SPEECH_US, PAD_AFTER_US, PAD_BEFORE_US, SAMPLES_PER_SLICE,
    TIME_MAX, VAD_CHUNK, VAD_EXIT_FLOOR, VAD_HYSTERESIS,
};
use crate::mask::{fill, inverted, is_run, lemma_runs, runs, runs_of};
use crate::order::{is_order, order_of, stable_order};

verus! {

/// How long `n` grid slices last.
pub open spec fn slices_us(n: int) -> int {
    n * GRID_US
}

/// How many whole grid slices fit in `us`.
pub open spec fn whole_slices(us: int) -> int {
    if us < 0 {
        0
    } else {
        us / GRID_US as int
    }
}

/// How long `n` grid slices last.
pub fn slices_to_us(n: usize) -> (us: i128)
    ensures
        us == slices_us(n as int),
        0 <= us,
{
    assert(n <= 0xffff_ffff_ffff_ffff);
    n as i128 * 20_000
}

/// How many whole grid slices fit in `us`.
pub fn us_to_slices(us: i64) -> (n: i64)
    ensures
        n == whole_slices(us as int),
        0 <= n,
{
    if us < 0 {
        0
    } else {
        us / GRID_US
    }
}

// ---------------------------------------------------------------------------
// Hysteresis
// ---------------------------------------------------------------------------
/// The exit threshold that goes with an enter threshold.
pub open spec fn exit_for(enter: int) -> int {
    if enter - VAD_HYSTERESIS > VAD_EXIT_FLOOR {
        enter - VAD_HYSTERESIS
    } else {
        VAD_EXIT_FLOOR as int
    }
}

/// The exit threshold that goes with an enter threshold.
pub fn exit_threshold(enter: i64) -> (exit: i64)
    requires
        -TIME_MAX <= enter,
    ensures
        exit == exit_for(enter as int),
{
    if enter - VAD_HYSTERESIS > VAD_EXIT_FLOOR {
        enter - VAD_HYSTERESIS
    } else {
        VAD_EXIT_FLOOR
    }
}

/// Whether speech is on after the first `n` chunks: it starts at `enter` and
/// lasts until a probability under `exit`.
pub open spec fn speaking(probs: Seq<i64>, enter: i64, exit: i64, n: int) -> bool
    decreases n,
{
    if n <= 0 {
        false
    } else if speaking(probs, enter, exit, n - 1) {
        probs[n - 1] >= exit
    } else {
        probs[n - 1] >= enter
    }
}

/// One flag per chunk.
pub open spec fn chunk_speech(probs: Seq<i64>, enter: i64, exit: i64) -> Seq<bool> {
    Seq::new(probs.len(), |i: int| speaking(probs, enter, exit, i + 1))
}

/// Marks the chunks that are speech, with separate thresholds for starting
/// and for stopping.
pub fn hysteresis(probs: &Vec<i64>, enter: i64, exit: i64) -> (out: Vec<bool>)
    ensures
        out@ == chunk_speech(probs@, enter, exit),
{
    let mut out: Vec<bool> = Vec::new();
    let mut on = false;
    let mut i: usize = 0;
    while i < probs.len()
        invariant
            i <= probs@.len(),
            on == speaking(probs@, enter, exit, i as int),
            out@ == Seq::new(i as nat, |k: int| speaking(probs@, enter, exit, k + 1)),
        decreases probs@.len() - i,
    {
        let p: i64 = probs[i];
        if on {
            if p < exit {
                on = false;
            }
        } else if p >= enter {
            on = true;
        }
        out.push(on);
        i += 1;
    }
    out
}

// ---------------------------------------------------------------------------
// Bridging
// ---------------------------------------------------------------------------
/// `[a, b)` is a silence between two stretches of speech, shorter than `gap`.
pub open spec fn short_gap(speech: Seq<bool>, gap: int, a: int, b: int) -> bool {
    &&& is_run(speech, false, a, b)
    &&& 0 < a
    &&& b < speech.len()
    &&& slices_us(b - a) < gap
}

/// Speech, with every short gap turned into speech.
pub open spec fn bridged(speech: Seq<bool>, gap: int) -> Seq<bool> {
    Seq::new(
        speech.len(),
        |i: int|
            speech[i] || exists|a: int, b: int| #[trigger]
                short_gap(speech, gap, a, b) && a <= i < b,
    )
}

/// Turns gaps shorter than `max_gap_us`, with speech on both sides, into
/// speech.
pub fn bridge(speech: &Vec<bool>, max_gap_us: i64) -> (out: Vec<bool>)
    ensures
        out@ == bridged(speech@, max_gap_us as int),
{
    let gaps = runs_of(speech, false);
    let mut out = speech.clone();
    let n: usize = speech.len();
    let ghost r = runs(inverted(speech@));
    proof {
        lemma_runs(inverted(speech@));
        assert(out@ == speech@);
    }
    let mut k: usize = 0;
    while k < gaps.len()
        invariant
            n == speech@.len(),
            k <= gaps@.len(),
            gaps@ == r,
            out@.len() == speech@.len(),
            forall|l: int|
                0 <= l < r.len() ==> is_run(
                    inverted(speech@),
                    true,
                    (#[trigger] r[l]).0 as int,
                    r[l].1 as int,
                ),
            forall|i: int|
                0 <= i < out@.len() ==> (#[trigger] out@[i] <==> speech@[i] || exists|l: int|
                    0 <= l < k && (#[trigger] r[l]).0 <= i < r[l].1 && short_gap(
                        speech@,
                        max_gap_us as int,
                        r[l].0 as int,
                        r[l].1 as int,
                    )),
        decreases gaps@.len() - k,
    {
        let a: usize = gaps[k].0;
        let b: usize = gaps[k].1;
        let ghost before = out@;
        assert(is_run(inverted(speech@), true, r[k as int].0 as int, r[k as int].1 as int));
        assert(is_run(speech@, false, a as int, b as int)) by {
            assert forall|i: int| a <= i < b implies speech@[i] == false by {
                assert(inverted(speech@)[i]);
            }
        }
        if a > 0 && b < n && slices_to_us(b - a) < max_gap_us as i128 {
            fill(&mut out, a, b, true);
        }
        k += 1;
        assert forall|i: int| 0 <= i < out@.len() implies (#[trigger] out@[i] <==> speech@[i]
            || exists|l: int|
            0 <= l < k && (#[trigger] r[l]).0 <= i < r[l].1 && short_gap(
                speech@,
                max_gap_us as int,
                r[l].0 as int,
                r[l].1 as int,
            )) by {
            if out@[i] && !speech@[i] {
                if before[i] {
                } else {
                    assert(r[k - 1].0 <= i < r[k - 1].1);
                }
            }
            if exists|l: int|
                0 <= l < k && (#[trigger] r[l]).0 <= i < r[l].1 && short_gap(
                    speech@,
                    max_gap_us as int,
                    r[l].0 as int,
                    r[l].1 as int,
                ) {
                let l = choose|l: int|
                    0 <= l < k && (#[trigger] r[l]).0 <= i < r[l].1 && short_gap(
                        speech@,
                        max_gap_us as int,
                        r[l].0 as int,
                        r[l].1 as int,
                    );
                assert(l == k - 1 || before[i]);
            }
        }
    }
    assert forall|i: int| 0 <= i < out@.len() implies out@[i] == bridged(
        speech@,
        max_gap_us as int,
    )[i] by {
        if exists|a: int, b: int| #[trigger]
            short_gap(speech@, max_gap_us as int, a, b) && a <= i < b {
            let (a, b) = choose|a: int, b: int| #[trigger]
                short_gap(speech@, max_gap_us as int, a, b) && a <= i < b;
            assert(is_run(inverted(speech@), true, a, b));
            let l = choose|l: int| 0 <= l < r.len() && r[l] == (a as usize, b as usize);
            assert(r[l].0 <= i < r[l].1);
        }
    }
    out
}

// ---------------------------------------------------------------------------
// Dropping bursts
// ---------------------------------------------------------------------------
/// `[a, b)` is a stretch of speech shorter than `min`.
pub open spec fn burst(speech: Seq<bool>, min: int, a: int, b: int) -> bool {
    is_run(speech, true, a, b) && slices_us(b - a) < min
}

/// Speech without its bursts.
pub open spec fn without_bursts(speech: Seq<bool>, min: int) -> Seq<bool> {
    Seq::new(
        speech.len(),
        |i: int|
            speech[i] && !exists|a: int, b: int| #[trigger]
                burst(speech, min, a, b) && a <= i < b,
    )
}

/// How many of the runs are shorter than `min`.
pub open spec fn count_short(runs: Seq<(usize, usize)>, min: int) -> nat
    decreases runs.len(),
{
    if runs.len() == 0 {
        0
    } else {
        count_short(runs.drop_last(), min) + (if slices_us(runs.last().1 - runs.last().0) < min {
            1nat
        } else {
            0
        })
    }
}

/// Drops stretches of speech shorter than `min_speech_us`; also returns how
/// many there were.
pub fn drop_bursts(speech: &Vec<bool>, min_speech_us: i64) -> (r: (Vec<bool>, usize))
    ensures
        r.0@ == without_bursts(speech@, min_speech_us as int),
        r.1 == count_short(runs(speech@), min_speech_us as int),
{
    let stretches = runs_of(speech, true);
    let mut out = speech.clone();
    let mut dropped: usize = 0;
    let n: usize = speech.len();
    let ghost r = runs(speech@);
    let ghost min = min_speech_us as int;
    proof {
        lemma_runs(speech@);
        assert(out@ == speech@);
    }
    let mut k: usize = 0;
    while k < stretches.len()
        invariant
            n == speech@.len(),
            k <= stretches@.len(),
            dropped <= k,
            stretches@ == r,
            min == min_speech_us,
            out@.len() == speech@.len(),
            forall|l: int|
                0 <= l < r.len() ==> is_run(
                    speech@,
                    true,
                    (#[trigger] r[l]).0 as int,
                    r[l].1 as int,
                ),
            dropped == count_short(r.take(k as int), min),
            forall|i: int|
                0 <= i < out@.len() ==> (#[trigger] out@[i] <==> speech@[i] && !exists|l: int|
                    0 <= l < k && (#[trigger] r[l]).0 <= i < r[l].1 && burst(
                        speech@,
                        min,
                        r[l].0 as int,
                        r[l].1 as int,
                    )),
        decreases stretches@.len() - k,
    {
        let a: usize = stretches[k].0;
        let b: usize = stretches[k].1;
        let ghost before = out@;
        assert(is_run(speech@, true, r[k as int].0 as int, r[k as int].1 as int));
        assert(r.take(k + 1).drop_last() == r.take(k as int));
        if slices_to_us(b - a) < min_speech_us as i128 {
            fill(&mut out, a, b, false);
            dropped += 1;
        }
        k += 1;
        assert forall|i: int| 0 <= i < out@.len() implies (#[trigger] out@[i] <==> speech@[i]
            && !exists|l: int|
            0 <= l < k && (#[trigger] r[l]).0 <= i < r[l].1 && burst(
                speech@,
                min,
                r[l].0 as int,
                r[l].1 as int,
            )) by {
            if speech@[i] && !out@[i] {
                if !before[i] {
                } else {
                    assert(r[k - 1].0 <= i < r[k - 1].1);
                }
            }
            if exists|l: int|
                0 <= l < k && (#[trigger] r[l]).0 <= i < r[l].1 && burst(
                    speech@,
                    min,
                    r[l].0 as int,
                    r[l].1 as int,
                ) {
                let l = choose|l: int|
                    0 <= l < k && (#[trigger] r[l]).0 <= i < r[l].1 && burst(
                        speech@,
                        min,
                        r[l].0 as int,
                        r[l].1 as int,
                    );
                assert(l == k - 1 || !before[i]);
            }
        }
    }
    proof {
        assert(r.take(k as int) == r);
        assert forall|i: int| 0 <= i < out@.len() implies out@[i] == without_bursts(
            speech@,
            min,
        )[i] by {
            if exists|a: int, b: int| #[trigger] burst(speech@, min, a, b) && a <= i < b {
                let (a, b) = choose|a: int, b: int| #[trigger]
                    burst(speech@, min, a, b) && a <= i < b;
                assert(is_run(speech@, true, a, b));
                let l = choose|l: int| 0 <= l < r.len() && r[l] == (a as usize, b as usize);
                assert(r[l].0 <= i < r[l].1);
            }
        }
    }
    (out, dropped)
}

// ---------------------------------------------------------------------------
// Padding
// ---------------------------------------------------------------------------
/// Slice `j` is speech and reaches slice `i` once padded.
pub open spec fn reaches(speech: Seq<bool>, before: int, after: int, j: int, i: int) -> bool {
    &&& 0 <= j < speech.len()
    &&& speech[j]
    &&& j - whole_slices(before) <= i <= j + whole_slices(after)
}

/// Speech, extended on both sides.
pub open spec fn padded(speech: Seq<bool>, before: int, after: int) -> Seq<bool> {
    Seq::new(
        speech.len(),
        |i: int| exists|j: int| #[trigger] reaches(speech, before, after, j, i),
    )
}

/// Extends every stretch of speech backwards and forwards by whole slices.
pub fn pad(speech: &Vec<bool>, before_us: i64, after_us: i64) -> (out: Vec<bool>)
    ensures
        out@ == padded(speech@, before_us as int, after_us as int),
{
    let back: i64 = us_to_slices(before_us);
    let ahead: i64 = us_to_slices(after_us);
    let stretches = runs_of(speech, true);
    let mut out = speech.clone();
    let n: usize = speech.len();
    let ghost r = runs(speech@);
    let ghost bf = before_us as int;
    let ghost af = after_us as int;
    proof {
        lemma_runs(speech@);
        assert(out@ == speech@);
    }
    let mut k: usize = 0;
    while k < stretches.len()
        invariant
            n == speech@.len(),
            k <= stretches@.len(),
            stretches@ == r,
            bf == before_us,
            af == after_us,
            back == whole_slices(bf),
            ahead == whole_slices(af),
            0 <= back,
            0 <= ahead,
            out@.len() == speech@.len(),
            forall|l: int|
                0 <= l < r.len() ==> is_run(
                    speech@,
                    true,
                    (#[trigger] r[l]).0 as int,
                    r[l].1 as int,
                ),
            forall|i: int|
                0 <= i < out@.len() ==> (#[trigger] out@[i] <==> speech@[i] || exists|l: int|
                    0 <= l < k && (#[trigger] r[l]).0 - back <= i < r[l].1 + ahead),
        decreases stretches@.len() - k,
    {
        let a: usize = stretches[k].0;
        let b: usize = stretches[k].1;
        let ghost before = out@;
        assert(is_run(speech@, true, r[k as int].0 as int, r[k as int].1 as int));
        let from: usize = if (a as i128) < (back as i128) {
            0
        } else {
            (a as i128 - back as i128) as usize
        };
        let to: usize = if b as i128 + ahead as i128 > n as i128 {
            n
        } else {
            (b as i128 + ahead as i128) as usize
        };
        fill(&mut out, from, to, true);
        k += 1;
        assert forall|i: int| 0 <= i < out@.len() implies (#[trigger] out@[i] <==> speech@[i]
            || exists|l: int| 0 <= l < k && (#[trigger] r[l]).0 - back <= i < r[l].1 + ahead) by {
            if out@[i] && !before[i] {
                assert(r[k - 1].0 - back <= i < r[k - 1].1 + ahead);
            }
            if exists|l: int| 0 <= l < k && (#[trigger] r[l]).0 - back <= i < r[l].1 + ahead {
                let l = choose|l: int|
                    0 <= l < k && (#[trigger] r[l]).0 - back <= i < r[l].1 + ahead;
                assert(l == k - 1 || before[i]);
            }
        }
    }
    proof {
        assert forall|i: int| 0 <= i < out@.len() implies out@[i] == padded(
            speech@,
            bf,
            af,
        )[i] by {
            if out@[i] {
                if speech@[i] {
                    assert(reaches(speech@, bf, af, i, i));
                } else {
                    let l = choose|l: int|
                        0 <= l < r.len() && (#[trigger] r[l]).0 - back <= i < r[l].1 + ahead;
                    let a = r[l].0 as int;
                    let b = r[l].1 as int;
                    assert(is_run(speech@, true, a, b));
                    let j = if i < a {
                        a
                    } else if i >= b {
                        b - 1
                    } else {
                        i
                    };
                    assert(reaches(speech@, bf, af, j, i));
                }
            }
            if exists|j: int| #[trigger] reaches(speech@, bf, af, j, i) {
                let j = choose|j: int| #[trigger] reaches(speech@, bf, af, j, i);
                crate::mask::lemma_runs_between(speech@, 0, speech@.len() as int);
                assert(speech@[j]);
                let l = choose|l: int| 0 <= l < r.len() && (#[trigger] r[l]).0 <= j < r[l].1;
                assert(r[l].0 - back <= i < r[l].1 + ahead);
            }
        }
    }
    out
}

// ---------------------------------------------------------------------------
// The whole pipeline
// ---------------------------------------------------------------------------
/// The model chunk that holds the midpoint sample of grid slice `i`.
pub open spec fn chunk_of_slice(i: int) -> int {
    (i * SAMPLES_PER_SLICE + SAMPLES_PER_SLICE / 2) / VAD_CHUNK as int
}

/// Chunk flags painted onto the grid; a slice past the last chunk is silent.
pub open spec fn painted(chunks: Seq<bool>, grid_len: nat) -> Seq<bool> {
    Seq::new(
        grid_len,
        |i: int| chunk_of_slice(i) < chunks.len() && chunks[chunk_of_slice(i)],
    )
}

/// The speech mask for a pair of thresholds.
pub open spec fn speech_mask_of(probs: Seq<i64>, enter: i64, exit: i64, grid_len: nat) -> Seq<
    bool,
> {
    padded(
        without_bursts(
            bridged(painted(chunk_speech(probs, enter, exit), grid_len), BRIDGE_GAP_US as int),
            MIN_SPEECH_US as int,
        ),
        PAD_BEFORE_US as int,
        PAD_AFTER_US as int,
    )
}

/// Paints chunk flags onto the grid.
pub fn paint(chunks: &Vec<bool>, grid_len: usize) -> (out: Vec<bool>)
    ensures
        out@ == painted(chunks@, grid_len as nat),
{
    let mut out: Vec<bool> = Vec::new();
    let mut i: usize = 0;
    while i < grid_len
        invariant
            i <= grid_len,
            out@ == painted(chunks@, i as nat),
        decreases grid_len - i,
    {
        assert(i <= 0xffff_ffff_ffff_ffff);
        let chunk: i128 = (i as i128 * 320 + 160) / 512;
        assert(chunk == chunk_of_slice(i as int));
        let set = if chunk < chunks.len() as i128 {
            chunks[chunk as usize]
        } else {
            false
        };
        out.push(set);
        i += 1;
        assert(out@ == painted(chunks@, i as nat));
    }
    out
}

/// Full speech-mask pipeline from speech probabilities: hysteresis, paint onto
/// the grid, bridge, drop bursts, pad. The probabilities do not depend on the
/// thresholds, so a sweep reruns only this.
pub fn speech_mask(probs: &Vec<i64>, enter: i64, exit: i64, grid_len: usize) -> (out: Vec<bool>)
    ensures
        out@ == speech_mask_of(probs@, enter, exit, grid_len as nat),
        out@.len() == grid_len,
{
    let chunks = hysteresis(probs, enter, exit);
    let speech = paint(&chunks, grid_len);
    let joined = bridge(&speech, BRIDGE_GAP_US);
    let (kept, _) = drop_bursts(&joined, MIN_SPEECH_US);
    pad(&kept, PAD_BEFORE_US, PAD_AFTER_US)
}

// ---------------------------------------------------------------------------
// Silences, longest first
// ---------------------------------------------------------------------------
/// Sort keys that put the longest run first.
pub open spec fn longest_first(runs: Seq<(usize, usize)>) -> Seq<i64> {
    Seq::new(runs.len(), |k: int| (runs[k].0 - runs[k].1) as i64)
}

/// The first `n` silences when they are listed longest first; equally long
/// ones stay in time order.
pub open spec fn ranked_silences(speech: Seq<bool>, n: nat) -> Seq<(usize, usize)> {
    let r = runs(inverted(speech));
    let order = order_of(longest_first(r));
    Seq::new(
        if n < r.len() {
            n
        } else {
            r.len()
        },
        |k: int| r[order[k] as int],
    )
}

/// The `n` longest silences of a mask.
pub fn longest_silences(speech: &Vec<bool>, n: usize) -> (out: Vec<(usize, usize)>)
    requires
        speech@.len() <= i64::MAX,
    ensures
        out@ == ranked_silences(speech@, n as nat),
        forall|k: int|
            0 <= k < out@.len() ==> is_run(
                speech@,
                false,
                (#[trigger] out@[k]).0 as int,
                out@[k].1 as int,
            ),
        forall|k: int, l: int|
            0 <= k < l < out@.len() ==> (#[trigger] out@[k]).1 - out@[k].0 >= (
            #[trigger] out@[l]).1 - out@[l].0,
{
    let total: usize = speech.len();
    let silences = runs_of(speech, false);
    let ghost r = runs(inverted(speech@));
    proof {
        assert(inverted(speech@).len() == total);
        lemma_runs(inverted(speech@));
    }
    let mut keys: Vec<i64> = Vec::new();
    let mut k: usize = 0;
    while k < silences.len()
        invariant
            k <= silences@.len(),
            silences@ == r,
            speech@.len() <= i64::MAX,
            forall|l: int|
                0 <= l < r.len() ==> is_run(
                    inverted(speech@),
                    true,
                    (#[trigger] r[l]).0 as int,
                    r[l].1 as int,
                ),
            keys@ == longest_first(r.take(k as int)),
        decreases silences@.len() - k,
    {
        assert(is_run(inverted(speech@), true, r[k as int].0 as int, r[k as int].1 as int));
        keys.push(silences[k].0 as i64 - silences[k].1 as i64);
        k += 1;
        assert(keys@ == longest_first(r.take(k as int)));
    }
    assert(r.take(k as int) == r);
    let order = stable_order(&keys);
    let m: usize = if n < silences.len() {
        n
    } else {
        silences.len()
    };
    let mut out: Vec<(usize, usize)> = Vec::new();
    let mut j: usize = 0;
    while j < m
        invariant
            j <= m <= order@.len(),
            silences@ == r,
            order@.len() == r.len(),
            is_order(keys@, order@),
            keys@.len() == r.len(),
            out@ == Seq::new(j as nat, |k: int| r[order@[k] as int]),
        decreases m - j,
    {
        out.push(silences[order[j]]);
        j += 1;
        assert(out@ == Seq::new(j as nat, |k: int| r[order@[k] as int]));
    }
    proof {
        assert forall|k: int| 0 <= k < out@.len() implies is_run(
            speech@,
            false,
            (#[trigger] out@[k]).0 as int,
            out@[k].1 as int,
        ) by {
            let q = r[order@[k] as int];
            assert(is_run(inverted(speech@), true, q.0 as int, q.1 as int));
            assert forall|i: int| q.0 <= i < q.1 implies speech@[i] == false by {
                assert(inverted(speech@)[i]);
            }
        }
        assert forall|k: int, l: int| 0 <= k < l < out@.len() implies (#[trigger] out@[k]).1
            - out@[k].0 >= (#[trigger] out@[l]).1 - out@[l].0 by {
            let a = order@[k] as int;
            let b = order@[l] as int;
            assert(crate::order::before(keys@, a, b));
            assert(is_run(inverted(speech@), true, r[a].0 as int, r[a].1 as int));
            assert(is_run(inverted(speech@), true, r[b].0 as int, r[b].1 as int));
        }
    }
    out
}

// ---------------------------------------------------------------------------
// Lower thresholds are more sensitive
// ---------------------------------------------------------------------------
/// Every set bit of `a` is set in `b`.
pub open spec fn within(a: Seq<bool>, b: Seq<bool>) -> bool {
    a.len() == b.len() && forall|i: int| 0 <= i < a.len() && #[trigger] a[i] ==> b[i]
}

proof fn lemma_speaking_grows(
    probs: Seq<i64>,
    enter: i64,
    exit: i64,
    enter2: i64,
    exit2: i64,
    n: int,
)
    requires
        exit <= enter,
        enter2 <= enter,
        exit2 <= exit,
        speaking(probs, enter, exit, n),
    ensures
        speaking(probs, enter2, exit2, n),
    decreases n,
{
    if n > 0 && speaking(probs, enter, exit, n - 1) {
        lemma_speaking_grows(probs, enter, exit, enter2, exit2, n - 1);
    }
}

/// The maximal run of `v` around an index that holds `v`.
proof fn lemma_run_around(mask: Seq<bool>, v: bool, i: int) -> (r: (int, int))
    requires
        mask.len() <= usize::MAX,
        0 <= i < mask.len(),
        mask[i] == v,
    ensures
        is_run(mask, v, r.0, r.1),
        r.0 <= i < r.1,
{
    let m = if v {
        mask
    } else {
        inverted(mask)
    };
    lemma_runs(m);
    crate::mask::lemma_runs_between(m, 0, m.len() as int);
    assert(m[i]);
    let k = choose|k: int| 0 <= k < runs(m).len() && (#[trigger] runs(m)[k]).0 <= i < runs(m)[k].1;
    let a = runs(m)[k].0 as int;
    let b = runs(m)[k].1 as int;
    assert(is_run(m, true, a, b));
    assert forall|j: int| a <= j < b implies mask[j] == v by {
        assert(m[j]);
    }
    (a, b)
}

proof fn lemma_bridged_grows(a: Seq<bool>, b: Seq<bool>, gap: int)
    requires
        within(a, b),
        a.len() <= usize::MAX,
    ensures
        within(bridged(a, gap), bridged(b, gap)),
{
    assert forall|i: int| 0 <= i < a.len() && #[trigger] bridged(a, gap)[i] implies bridged(
        b,
        gap,
    )[i] by {
        if !b[i] {
            assert(!a[i]);
            let (s, e) = choose|s: int, e: int| #[trigger] short_gap(a, gap, s, e) && s <= i < e;
            let (c, d) = lemma_run_around(b, false, i);
            assert(a[s - 1] && a[e]);
            assert(b[s - 1] && b[e]);
            assert(s <= c && d <= e);
            assert(slices_us(d - c) <= slices_us(e - s));
            assert(short_gap(b, gap, c, d));
        }
    }
}

proof fn lemma_bursts_grow(a: Seq<bool>, b: Seq<bool>, min: int)
    requires
        within(a, b),
        a.len() <= usize::MAX,
    ensures
        within(without_bursts(a, min), without_bursts(b, min)),
{
    assert forall|i: int| 0 <= i < a.len() && #[trigger] without_bursts(
        a,
        min,
    )[i] implies without_bursts(b, min)[i] by {
        assert(a[i] && b[i]);
        let (c, d) = lemma_run_around(a, true, i);
        assert(!burst(a, min, c, d));
        if exists|s: int, e: int| #[trigger] burst(b, min, s, e) && s <= i < e {
            let (s, e) = choose|s: int, e: int| #[trigger] burst(b, min, s, e) && s <= i < e;
            assert(s <= c) by {
                if c < s {
                    assert(a[s - 1]);
                }
            }
            assert(d <= e) by {
                if e < d {
                    assert(a[e]);
                }
            }
            assert(slices_us(d - c) <= slices_us(e - s));
        }
    }
}

/// Lowering the thresholds only ever adds speech: the mask for the lower pair
/// holds every slice of the mask for the higher pair.
pub proof fn law_lower_thresholds_add_speech(
    probs: Seq<i64>,
    enter: i64,
    exit: i64,
    lower_enter: i64,
    lower_exit: i64,
    grid_len: nat,
)
    requires
        exit <= enter,
        lower_enter <= enter,
        lower_exit <= exit,
        grid_len <= usize::MAX,
    ensures
        within(
            speech_mask_of(probs, enter, exit, grid_len),
            speech_mask_of(probs, lower_enter, lower_exit, grid_len),
        ),
{
    let ca = chunk_speech(probs, enter, exit);
    let cb = chunk_speech(probs, lower_enter, lower_exit);
    let a = painted(ca, grid_len);
    let b = painted(cb, grid_len);
    assert forall|i: int| 0 <= i < grid_len && #[trigger] a[i] implies b[i] by {
        lemma_speaking_grows(probs, enter, exit, lower_enter, lower_exit, chunk_of_slice(i) + 1);
    }
    let a2 = bridged(a, BRIDGE_GAP_US as int);
    let b2 = bridged(b, BRIDGE_GAP_US as int);
    lemma_bridged_grows(a, b, BRIDGE_GAP_US as int);
    let a3 = without_bursts(a2, MIN_SPEECH_US as int);
    let b3 = without_bursts(b2, MIN_SPEECH_US as int);
    lemma_bursts_grow(a2, b2, MIN_SPEECH_US as int);
    let bf = PAD_BEFORE_US as int;
    let af = PAD_AFTER_US as int;
    let a4 = padded(a3, bf, af);
    let b4 = padded(b3, bf, af);
    assert forall|i: int| 0 <= i < grid_len && #[trigger] a4[i] implies b4[i] by {
        let j = choose|j: int| #[trigger] reaches(a3, bf, af, j, i);
        assert(a3[j]);
        assert(reaches(b3, bf, af, j, i));
    }
}

/// Every speech mask keeps clear of what it found: a slice that survives
/// bridging and burst removal is speech, and so is everything within the pads.
pub proof fn law_pads_are_speech(
    probs: Seq<i64>,
    enter: i64,
    exit: i64,
    grid_len: nat,
    j: int,
    i: int,
)
    requires
        0 <= j < grid_len,
        0 <= i < grid_len,
        without_bursts(
            bridged(painted(chunk_speech(probs, enter, exit), grid_len), BRIDGE_GAP_US as int),
            MIN_SPEECH_US as int,
        )[j],
        j - 25 <= i <= j + 27,
    ensures
        speech_mask_of(probs, enter, exit, grid_len)[i],
{
    let s = without_bursts(
        bridged(painted(chunk_speech(probs, enter, exit), grid_len), BRIDGE_GAP_US as int),
        MIN_SPEECH_US as int,
    );
    assert(reaches(s, PAD_BEFORE_US as int, PAD_AFTER_US as int, j, i));
}

// ---------------------------------------------------------------------------
// Laws
// ---------------------------------------------------------------------------
/// Speech stops at 0.15 under where it starts, but never under 0.01.
pub proof fn law_speech_stops_below_where_it_starts(enter: int)
    ensures
        exit_for(enter) >= 10_000,
        exit_for(enter) >= enter - 150_000,
        exit_for(enter) == 10_000 || exit_for(enter) == enter - 150_000,
{
}

/// A chunk is speech exactly when some chunk up to it reaches the enter
/// threshold and no chunk since has fallen under the exit threshold.
pub proof fn law_speech_lasts_until_it_falls_off(probs: Seq<i64>, enter: i64, exit: i64, i: int)
    requires
        exit <= enter,
        0 <= i < probs.len(),
    ensures
        chunk_speech(probs, enter, exit).len() == probs.len(),
        chunk_speech(probs, enter, exit)[i] <==> exists|j: int|
            0 <= j <= i && #[trigger] probs[j] >= enter && forall|m: int|
                j < m <= i ==> #[trigger] probs[m] >= exit,
    decreases i,
{
    if i > 0 {
        law_speech_lasts_until_it_falls_off(probs, enter, exit, i - 1);
    }
    if speaking(probs, enter, exit, i + 1) {
        if speaking(probs, enter, exit, i) {
            assert(chunk_speech(probs, enter, exit)[i - 1]);
            let j = choose|j: int|
                0 <= j <= i - 1 && #[trigger] probs[j] >= enter && forall|m: int|
                    j < m <= i - 1 ==> #[trigger] probs[m] >= exit;
            assert forall|m: int| j < m <= i implies #[trigger] probs[m] >= exit by {
                if m < i {
                    assert(j < m <= i - 1);
                }
            }
            assert(probs[j] >= enter);
        } else {
            assert(probs[i] >= enter);
        }
    }
    if exists|j: int|
        0 <= j <= i && #[trigger] probs[j] >= enter && forall|m: int|
            j < m <= i ==> #[trigger] probs[m] >= exit {
        let j = choose|j: int|
            0 <= j <= i && #[trigger] probs[j] >= enter && forall|m: int|
                j < m <= i ==> #[trigger] probs[m] >= exit;
        if j < i {
            assert(probs[i] >= exit);
            assert(chunk_speech(probs, enter, exit)[i - 1]);
        }
    }
}

/// A slice takes the flag of the 512-sample chunk that its middle sample falls
/// in, at 320 samples a slice, and is silent where there is no such chunk.
pub proof fn law_a_slice_takes_the_chunk_of_its_middle(
    chunks: Seq<bool>,
    grid_len: nat,
    i: int,
    c: int,
)
    requires
        0 <= i < grid_len,
        512 * c <= 320 * i + 160 < 512 * (c + 1),
    ensures
        painted(chunks, grid_len).len() == grid_len,
        painted(chunks, grid_len)[i] <==> c < chunks.len() && chunks[c],
{
}

/// A silence is bridged, and all of it, exactly when there is speech on both
/// sides of it and it is shorter than the gap; speech stays. A slice is 20 ms.
pub proof fn law_short_silences_are_bridged(speech: Seq<bool>, gap: int, a: int, b: int, i: int)
    requires
        0 <= a <= i < b <= speech.len(),
        forall|k: int| a <= k < b ==> !#[trigger] speech[k],
        a > 0 ==> speech[a - 1],
        b < speech.len() ==> speech[b],
    ensures
        bridged(speech, gap).len() == speech.len(),
        bridged(speech, gap)[i] <==> 0 < a && b < speech.len() && 20_000 * (b - a) < gap,
        forall|k: int| 0 <= k < speech.len() && #[trigger] speech[k] ==> bridged(speech, gap)[k],
{
    assert(is_run(speech, false, a, b));
    if bridged(speech, gap)[i] {
        let (c, d) = choose|c: int, d: int| #[trigger] short_gap(speech, gap, c, d) && c <= i < d;
        lemma_same_run(speech, false, a, b, c, d, i);
    }
    if 0 < a && b < speech.len() && 20_000 * (b - a) < gap {
        assert(short_gap(speech, gap, a, b));
    }
}

proof fn lemma_same_run(mask: Seq<bool>, v: bool, a: int, b: int, c: int, d: int, i: int)
    requires
        is_run(mask, v, a, b),
        is_run(mask, v, c, d),
        a <= i < b,
        c <= i < d,
    ensures
        a == c,
        b == d,
{
    if a < c {
        assert(mask[c - 1] == v);
    }
    if c < a {
        assert(mask[a - 1] == v);
    }
    if b < d {
        assert(mask[b] == v);
    }
    if d < b {
        assert(mask[d] == v);
    }
}

/// A stretch of speech stays, and all of it, exactly when it lasts for the
/// minimum or longer; silence stays.
pub proof fn law_short_bursts_are_dropped(speech: Seq<bool>, min: int, a: int, b: int, i: int)
    requires
        0 <= a <= i < b <= speech.len(),
        forall|k: int| a <= k < b ==> #[trigger] speech[k],
        a > 0 ==> !speech[a - 1],
        b < speech.len() ==> !speech[b],
    ensures
        without_bursts(speech, min).len() == speech.len(),
        without_bursts(speech, min)[i] <==> 20_000 * (b - a) >= min,
        forall|k: int|
            0 <= k < speech.len() && !#[trigger] speech[k] ==> !without_bursts(speech, min)[k],
{
    assert(is_run(speech, true, a, b));
    if 20_000 * (b - a) < min {
        assert(burst(speech, min, a, b));
    } else if exists|c: int, d: int| #[trigger] burst(speech, min, c, d) && c <= i < d {
        let (c, d) = choose|c: int, d: int| #[trigger] burst(speech, min, c, d) && c <= i < d;
        lemma_same_run(speech, true, a, b, c, d, i);
    }
}

/// A slice is speech once padded exactly when some slice of speech lies no more
/// than the lead after it and no more than the tail before it.
pub proof fn law_padding_reaches_both_ways(speech: Seq<bool>, lead: int, tail: int, i: int)
    requires
        0 <= lead,
        0 <= tail,
        0 <= i < speech.len(),
    ensures
        padded(speech, lead, tail).len() == speech.len(),
        padded(speech, lead, tail)[i] <==> exists|j: int|
            0 <= j < speech.len() && #[trigger] speech[j] && 20_000 * (j - i) <= lead && 20_000 * (i
                - j) <= tail,
{
    if padded(speech, lead, tail)[i] {
        let j = choose|j: int| #[trigger] reaches(speech, lead, tail, j, i);
        assert(speech[j]);
    }
    if exists|j: int|
        0 <= j < speech.len() && #[trigger] speech[j] && 20_000 * (j - i) <= lead && 20_000 * (i
            - j) <= tail {
        let j = choose|j: int|
            0 <= j < speech.len() && #[trigger] speech[j] && 20_000 * (j - i) <= lead && 20_000 * (i
                - j) <= tail;
        assert(reaches(speech, lead, tail, j, i));
    }
}

/// `[a, b)` is a whole stretch of speech of 0.25 s or more once silences
/// shorter than 0.35 s are bridged.
pub open spec fn solid_speech(probs: Seq<i64>, enter: i64, exit: i64, n: nat, a: int, b: int) -> bool {
    let s = bridged(painted(chunk_speech(probs, enter, exit), n), 350_000);
    &&& 0 <= a < b <= n
    &&& forall|k: int| a <= k < b ==> #[trigger] s[k]
    &&& a > 0 ==> !s[a - 1]
    &&& b < n ==> !s[b]
    &&& 20_000 * (b - a) >= 250_000
}

/// The mask is solid speech with half a second kept before it and 0.55 s after
/// it, in whole slices: nothing more and nothing less.
pub proof fn law_the_mask_is_solid_speech_and_its_pads(
    probs: Seq<i64>,
    enter: i64,
    exit: i64,
    grid_len: nat,
    i: int,
)
    requires
        grid_len <= usize::MAX,
        0 <= i < grid_len,
    ensures
        speech_mask_of(probs, enter, exit, grid_len).len() == grid_len,
        speech_mask_of(probs, enter, exit, grid_len)[i] <==> exists|a: int, b: int| #[trigger]
            solid_speech(probs, enter, exit, grid_len, a, b) && a - 25 <= i < b + 27,
{
    let s = bridged(painted(chunk_speech(probs, enter, exit), grid_len), 350_000);
    let t = without_bursts(s, 250_000);
    assert(speech_mask_of(probs, enter, exit, grid_len) == padded(t, 500_000, 550_000));
    law_padding_reaches_both_ways(t, 500_000, 550_000, i);
    if padded(t, 500_000, 550_000)[i] {
        let j = choose|j: int|
            0 <= j < t.len() && #[trigger] t[j] && 20_000 * (j - i) <= 500_000 && 20_000 * (i - j)
                <= 550_000;
        assert(s[j]);
        let (a, b) = lemma_run_around(s, true, j);
        law_short_bursts_are_dropped(s, 250_000, a, b, j);
        assert(solid_speech(probs, enter, exit, grid_len, a, b));
    }
    if exists|a: int, b: int| #[trigger]
        solid_speech(probs, enter, exit, grid_len, a, b) && a - 25 <= i < b + 27 {
        let (a, b) = choose|a: int, b: int| #[trigger]
            solid_speech(probs, enter, exit, grid_len, a, b) && a - 25 <= i < b + 27;
        let j = if i < a {
            a
        } else if i >= b {
            b - 1
        } else {
            i
        };
        law_short_bursts_are_dropped(s, 250_000, a, b, j);
        assert(t[j]);
    }
}

/// The silences listed are the longest: one that is left out is no longer than
/// any that is listed, and as many are listed as were asked for, or all.
pub proof fn law_no_longer_silence_is_left_out(speech: Seq<bool>, n: nat, a: usize, b: usize)
    requires
        speech.len() <= i64::MAX,
        speech.len() <= usize::MAX,
        is_run(speech, false, a as int, b as int),
    ensures
        ranked_silences(speech, n).len() <= n,
        ranked_silences(speech, n).contains((a, b)) || ranked_silences(speech, n).len() == n
            && forall|k: int|
            0 <= k < n ==> (#[trigger] ranked_silences(speech, n)[k]).1 - ranked_silences(
                speech,
                n,
            )[k].0 >= b - a,
{
    let inv = inverted(speech);
    let r = runs(inv);
    lemma_runs(inv);
    assert(is_run(inv, true, a as int, b as int)) by {
        assert forall|i: int| a <= i < b implies inv[i] == true by {
            assert(speech[i] == false);
        }
    }
    assert(r.contains((a, b)));
    let m = choose|m: int| 0 <= m < r.len() && r[m] == (a, b);
    let keys = longest_first(r);
    crate::mask::lemma_runs_count(inv, 0, inv.len() as int);
    crate::order::lemma_an_order_exists(keys);
    let order = order_of(keys);
    let out = ranked_silences(speech, n);
    assert(order.contains(m as usize));
    let at = choose|p: int| 0 <= p < order.len() && order[p] == m as usize;
    if at < out.len() {
        assert(out[at] == (a, b));
    } else {
        assert forall|k: int| 0 <= k < n implies (#[trigger] out[k]).1 - out[k].0 >= b - a by {
            assert(crate::order::before(keys, order[k] as int, order[at] as int));
            let q = r[order[k] as int];
            assert(is_run(inv, true, q.0 as int, q.1 as int));
        }
    }
}

} // verus!
