//! The speech threshold, picked per video and without labels.
//!
//! A fixed set of thresholds is swept, and for each the sections that the plan
//! would speed up are counted: the measure is the plan, not the mask. The flat
//! minimum of those counts is the plateau, and the highest threshold on it is
//! taken. Where the counts tell the thresholds apart too little, the default
//! stands: a tuner that cannot tell it is blind is worse than a constant.
use vstd::prelude::*;

use crate::constants::VAD_ENTER;
use crate::dead_air::{candidate_runs, speedup_starts, starts_of_long};
use crate::mask::{count_set, set_bits};
use crate::vad::{exit_for, exit_threshold, speech_mask, speech_mask_of};

verus! {

/// How many thresholds are swept.
pub const CANDIDATES: usize = 6;

/// The thresholds of the sweep, high to low.
pub open spec fn candidate(k: int) -> i64 {
    if k == 0 {
        500_000
    } else if k == 1 {
        400_000
    } else if k == 2 {
        300_000
    } else if k == 3 {
        250_000
    } else if k == 4 {
        200_000
    } else {
        150_000
    }
}

/// The `k`-th threshold of the sweep.
pub fn candidate_at(k: usize) -> (t: i64)
    ensures
        t == candidate(k as int),
{
    match k {
        0 => 500_000,
        1 => 400_000,
        2 => 300_000,
        3 => 250_000,
        4 => 200_000,
        _ => 150_000,
    }
}

/// How far the outcome of a sweep can be trusted.
#[derive(Clone, Copy, Debug, PartialEq, Eq, Structural)]
pub enum Status {
    Calibrated,
    Weak,
    NoSignal,
}

impl Status {
    pub open spec fn spec_label(self) -> Seq<char> {
        match self {
            Status::Calibrated => "calibrated"@,
            Status::Weak => "weak (provisional)"@,
            Status::NoSignal => "no signal — default"@,
        }
    }

    pub fn label(&self) -> (s: &'static str)
        ensures
            s@ == self.spec_label(),
    {
        match self {
            Status::Calibrated => "calibrated",
            Status::Weak => "weak (provisional)",
            Status::NoSignal => "no signal — default",
        }
    }
}

// ---------------------------------------------------------------------------
// Settling on a threshold
// ---------------------------------------------------------------------------
/// Index `k` holds the first of the smallest counts.
pub open spec fn is_plateau(counts: Seq<usize>, k: int) -> bool {
    &&& 0 <= k < counts.len()
    &&& forall|j: int| 0 <= j < counts.len() ==> counts[k] <= #[trigger] counts[j]
    &&& forall|j: int| 0 <= j < k ==> counts[k] < #[trigger] counts[j]
}

/// No count is above `m`, and one of them is `m`.
pub open spec fn is_highest(counts: Seq<usize>, m: int) -> bool {
    &&& forall|j: int| 0 <= j < counts.len() ==> #[trigger] counts[j] <= m
    &&& exists|j: int| 0 <= j < counts.len() && #[trigger] counts[j] == m
}

/// The outcome for a plateau at `k` and a spread of the counts.
pub open spec fn outcome(k: int, spread: int) -> (i64, Status) {
    if spread >= 2 {
        (candidate(k), Status::Calibrated)
    } else if spread == 1 && k != 0 && k != CANDIDATES - 1 {
        (candidate(k), Status::Weak)
    } else {
        (VAD_ENTER, Status::NoSignal)
    }
}

/// `r` is what the counts lead to.
pub open spec fn settles(counts: Seq<usize>, r: (i64, Status)) -> bool {
    exists|k: int, m: int|
        #![trigger is_plateau(counts, k), is_highest(counts, m)]
        is_plateau(counts, k) && is_highest(counts, m) && r == outcome(k, m - counts[k])
}

/// The threshold for the counts of a sweep.
pub fn settle(counts: &Vec<usize>) -> (r: (i64, Status))
    requires
        counts@.len() == CANDIDATES,
    ensures
        settles(counts@, r),
{
    let mut k: usize = 0;
    let mut high: usize = counts[0];
    let mut i: usize = 1;
    assert(counts@.take(1)[0] == high);
    while i < CANDIDATES
        invariant
            1 <= i <= CANDIDATES,
            counts@.len() == CANDIDATES,
            is_plateau(counts@.take(i as int), k as int),
            is_highest(counts@.take(i as int), high as int),
        decreases CANDIDATES - i,
    {
        let ghost (a, b) = (counts@.take(i as int), counts@.take(i + 1));
        assert(a.len() == i && b.len() == i + 1);
        assert(forall|j: int| 0 <= j < i ==> a[j] == #[trigger] b[j]);
        assert(b[i as int] == counts@[i as int]);
        let ghost old_high = high as int;
        let ghost at = choose|j: int| 0 <= j < a.len() && #[trigger] a[j] == old_high;
        assert(b[at] == old_high);
        if counts[i] < counts[k] {
            k = i;
        }
        if counts[i] > high {
            high = counts[i];
        }
        assert forall|j: int| 0 <= j < b.len() implies #[trigger] b[j] <= high by {
            if j < i {
                assert(a[j] <= old_high);
            }
        }
        assert(is_highest(b, high as int));
        i += 1;
    }
    assert(counts@.take(CANDIDATES as int) =~= counts@);
    let spread: usize = high - counts[k];
    let r = if spread >= 2 {
        (candidate_at(k), Status::Calibrated)
    } else if spread == 1 && k != 0 && k != CANDIDATES - 1 {
        (candidate_at(k), Status::Weak)
    } else {
        (VAD_ENTER, Status::NoSignal)
    };
    assert(r == outcome(k as int, high - counts@[k as int]));
    r
}

/// The counts lead to one outcome only.
proof fn lemma_settles_once(counts: Seq<usize>, r: (i64, Status), s: (i64, Status))
    requires
        settles(counts, r),
        settles(counts, s),
    ensures
        r == s,
{
    let (k, m) = choose|k: int, m: int|
        #![trigger is_plateau(counts, k), is_highest(counts, m)]
        is_plateau(counts, k) && is_highest(counts, m) && r == outcome(k, m - counts[k]);
    let (l, n) = choose|k: int, m: int|
        #![trigger is_plateau(counts, k), is_highest(counts, m)]
        is_plateau(counts, k) && is_highest(counts, m) && s == outcome(k, m - counts[k]);
    assert(counts[k] <= counts[l] && counts[l] <= counts[k]);
    let i = choose|j: int| 0 <= j < counts.len() && #[trigger] counts[j] == m;
    let j = choose|j: int| 0 <= j < counts.len() && #[trigger] counts[j] == n;
    assert(counts[i] <= n && counts[j] <= m);
}

/// A sweep that counts the same at every threshold has no signal, and the
/// default stands.
pub proof fn law_a_blind_sweep_keeps_the_default(counts: Seq<usize>, r: (i64, Status))
    requires
        counts.len() == CANDIDATES,
        settles(counts, r),
        forall|j: int| 0 <= j < counts.len() ==> #[trigger] counts[j] == counts[0],
    ensures
        r == (VAD_ENTER, Status::NoSignal),
{
    assert(is_plateau(counts, 0));
    assert(is_highest(counts, counts[0] as int));
    lemma_settles_once(counts, r, outcome(0, 0));
}

/// A calibrated threshold speeds up as few sections as any other of the sweep,
/// and every higher threshold speeds up more: the choice errs towards keeping.
pub proof fn law_calibration_takes_the_highest_of_the_plateau(
    counts: Seq<usize>,
    r: (i64, Status),
    k: int,
) -> (at: int)
    requires
        counts.len() == CANDIDATES,
        settles(counts, r),
        r.1 != Status::NoSignal,
        0 <= k < CANDIDATES,
    ensures
        0 <= at < CANDIDATES,
        r.0 == candidate(at),
        counts[at] <= counts[k],
        candidate(k) > candidate(at) ==> counts[at] < counts[k],
{
    let (at, m) = choose|k: int, m: int|
        #![trigger is_plateau(counts, k), is_highest(counts, m)]
        is_plateau(counts, k) && is_highest(counts, m) && r == outcome(k, m - counts[k]);
    at
}

// ---------------------------------------------------------------------------
// The sweep
// ---------------------------------------------------------------------------
/// One threshold of the sweep: how many slices are speech at it, and where the
/// plan would speed up, in whole seconds.
#[derive(Debug)]
pub struct Sweep {
    pub threshold: i64,
    pub speech: usize,
    pub starts: Vec<i64>,
}

/// The speech mask at a threshold of the sweep.
pub open spec fn mask_at(probs: Seq<i64>, t: i64, n: nat) -> Seq<bool> {
    speech_mask_of(probs, t, exit_for(t as int) as i64, n)
}

/// Where the plan would speed up at a threshold.
pub open spec fn starts_at(
    probs: Seq<i64>,
    frozen: Seq<bool>,
    energy: Seq<i64>,
    t: i64,
    n: nat,
) -> Seq<i64> {
    starts_of_long(candidate_runs(mask_at(probs, t, n), frozen, energy))
}

/// The row of the sweep for its `k`-th threshold.
pub open spec fn is_row(
    row: Sweep,
    k: int,
    probs: Seq<i64>,
    frozen: Seq<bool>,
    energy: Seq<i64>,
    n: nat,
) -> bool {
    let t = candidate(k);
    &&& row.threshold == t
    &&& row.speech == count_set(mask_at(probs, t, n))
    &&& row.starts@ == starts_at(probs, frozen, energy, t, n)
}

/// How many sections each row speeds up.
pub open spec fn row_counts(table: Seq<Sweep>) -> Seq<usize> {
    Seq::new(table.len(), |k: int| table[k].starts@.len() as usize)
}

/// Sweeps the thresholds and settles on one. The speech probabilities, in
/// millionths, do not depend on the threshold, so only the mask and the plan
/// are made anew.
pub fn calibrate_threshold(
    probs: &Vec<i64>,
    frozen: &Vec<bool>,
    energy_sm: &Vec<i64>,
    grid_len: usize,
) -> (r: (i64, Status, Vec<Sweep>))
    requires
        frozen@.len() >= grid_len,
        2 * grid_len + 400 <= usize::MAX,
        energy_sm@.len() + 30 >= 2 * grid_len,
    ensures
        r.2@.len() == CANDIDATES,
        forall|k: int|
            0 <= k < CANDIDATES ==> is_row(
                #[trigger] r.2@[k],
                k,
                probs@,
                frozen@,
                energy_sm@,
                grid_len as nat,
            ),
        settles(row_counts(r.2@), (r.0, r.1)),
{
    let mut table: Vec<Sweep> = Vec::new();
    let mut counts: Vec<usize> = Vec::new();
    let mut k: usize = 0;
    while k < CANDIDATES
        invariant
            k <= CANDIDATES,
            table@.len() == k,
            frozen@.len() >= grid_len,
            2 * grid_len + 400 <= usize::MAX,
            energy_sm@.len() + 30 >= 2 * grid_len,
            counts@ == row_counts(table@),
            forall|j: int|
                0 <= j < k ==> is_row(
                    #[trigger] table@[j],
                    j,
                    probs@,
                    frozen@,
                    energy_sm@,
                    grid_len as nat,
                ),
        decreases CANDIDATES - k,
    {
        let threshold: i64 = candidate_at(k);
        let exit: i64 = exit_threshold(threshold);
        let mask = speech_mask(probs, threshold, exit, grid_len);
        let speech: usize = set_bits(&mask);
        let starts = speedup_starts(&mask, frozen, energy_sm);
        counts.push(starts.len());
        table.push(Sweep { threshold, speech, starts });
        assert(counts@ =~= row_counts(table@));
        k += 1;
    }
    let (t, status): (i64, Status) = settle(&counts);
    (t, status, table)
}

// ---------------------------------------------------------------------------
// Laws
// ---------------------------------------------------------------------------
/// The sweep goes down through 0.5, 0.4, 0.3, 0.25, 0.2 and 0.15. A spread of
/// two sections or more calibrates; a spread of one is weak, and counts only
/// where the fewest sections are not at either end of the sweep; anything else
/// is no signal, and 0.3 stands. `lo` is where the fewest sections come first,
/// `hi` where the most are.
pub proof fn law_the_spread_decides_how_far_to_trust(
    counts: Seq<usize>,
    r: (i64, Status),
    lo: int,
    hi: int,
)
    requires
        counts.len() == 6,
        settles(counts, r),
        0 <= lo < 6,
        0 <= hi < 6,
        forall|j: int| 0 <= j < 6 ==> counts[lo] <= #[trigger] counts[j] <= counts[hi],
        forall|j: int| 0 <= j < lo ==> counts[lo] < #[trigger] counts[j],
    ensures
        r.1 is Calibrated <==> counts[hi] - counts[lo] >= 2,
        r.1 is Weak <==> counts[hi] - counts[lo] == 1 && 1 <= lo <= 4,
        r.1 is NoSignal ==> r.0 == 300_000,
        r.1 !is NoSignal ==> r.0 == (if lo == 0 {
            500_000int
        } else if lo == 1 {
            400_000
        } else if lo == 2 {
            300_000
        } else if lo == 3 {
            250_000
        } else if lo == 4 {
            200_000
        } else {
            150_000
        }),
{
    let (k, m) = choose|k: int, m: int|
        #![trigger is_plateau(counts, k), is_highest(counts, m)]
        is_plateau(counts, k) && is_highest(counts, m) && r == outcome(k, m - counts[k]);
    assert(counts[k] <= counts[lo] <= counts[k]);
    assert(k == lo);
    let j = choose|j: int| 0 <= j < counts.len() && #[trigger] counts[j] == m;
    assert(counts[j] <= counts[hi] <= m);
}

} // verus!
