//! Smoothing the energy curve.
use vstd::prelude::*;

use crate::constants::ENERGY_US;

verus! {

/// The sum of `energy[a..b]`.
pub open spec fn sum_between(energy: Seq<i64>, a: int, b: int) -> int
    decreases b - a,
{
    if b <= a {
        0
    } else {
        sum_between(energy, a, b - 1) + energy[b - 1]
    }
}

/// How many frames a window of `k` holds: at least one.
pub open spec fn width_of(k: int) -> int {
    if k < 1 {
        1
    } else {
        k
    }
}

/// The window of `width` frames around frame `i`, cut at the two ends. Half
/// of it, rounded down, lies before the frame.
pub open spec fn window(n: int, width: int, i: int) -> (int, int) {
    let first = i - width / 2;
    (
        if first < 0 {
            0
        } else {
            first
        },
        if first + width < n {
            first + width
        } else {
            n
        },
    )
}

/// The mean around frame `i`, rounded down.
pub open spec fn mean_around(energy: Seq<i64>, width: int, i: int) -> int {
    let (a, b) = window(energy.len() as int, width, i);
    sum_between(energy, a, b) / (b - a)
}

pub open spec fn smoothed(energy: Seq<i64>, k: int) -> Seq<i64> {
    Seq::new(energy.len(), |i: int| mean_around(energy, width_of(k), i) as i64)
}

/// A mean lies between the smallest and the largest value.
proof fn lemma_sum_bounds(energy: Seq<i64>, a: int, b: int, lo: int, hi: int)
    requires
        0 <= a <= b <= energy.len(),
        forall|i: int| a <= i < b ==> lo <= #[trigger] energy[i] <= hi,
    ensures
        lo * (b - a) <= sum_between(energy, a, b) <= hi * (b - a),
    decreases b - a,
{
    if a < b {
        lemma_sum_bounds(energy, a, b - 1, lo, hi);
        assert(lo <= energy[b - 1] <= hi);
        assert(lo * (b - a) == lo * (b - 1 - a) + lo) by (nonlinear_arith);
        assert(hi * (b - a) == hi * (b - 1 - a) + hi) by (nonlinear_arith);
    } else {
        assert(lo * 0 == 0 && hi * 0 == 0);
    }
}

proof fn lemma_mean_bounds(sum: int, n: int, lo: int, hi: int)
    requires
        n > 0,
        lo * n <= sum <= hi * n,
    ensures
        lo <= sum / n <= hi,
{
    crate::plan::lemma_quotient(sum, n, sum / n);
    let q = sum / n;
    assert(lo <= q <= hi) by (nonlinear_arith)
        requires
            n * q <= sum < n * q + n,
            lo * n <= sum <= hi * n,
            n > 0,
    ;
}

/// A smoothed level never leaves the range of the levels around it: a short
/// click cannot lift the mean over the loudest frame in the window.
pub proof fn law_smoothing_stays_in_range(energy: Seq<i64>, k: int, i: int, lo: int, hi: int)
    requires
        0 <= i < energy.len(),
        forall|j: int|
            window(energy.len() as int, width_of(k), i).0 <= j < window(
                energy.len() as int,
                width_of(k),
                i,
            ).1 ==> lo <= #[trigger] energy[j] <= hi,
    ensures
        lo <= mean_around(energy, width_of(k), i) <= hi,
{
    let (a, b) = window(energy.len() as int, width_of(k), i);
    lemma_sum_bounds(energy, a, b, lo, hi);
    lemma_mean_bounds(sum_between(energy, a, b), b - a, lo, hi);
}

/// Floor division for a sum of either sign.
fn floor_div(x: i128, n: i128) -> (q: i128)
    requires
        n > 0,
        -0x4000_0000_0000_0000_0000_0000_0000_0000 <= x
            <= 0x4000_0000_0000_0000_0000_0000_0000_0000,
        n <= 0x1_0000_0000_0000_0000,
    ensures
        q == x as int / n as int,
{
    if x >= 0 {
        x / n
    } else {
        let up: i128 = (-x + n - 1) / n;
        proof {
            let (gx, gn, q, r) = (x as int, n as int, up as int, x as int / n as int);
            crate::plan::lemma_quotient(-gx + gn - 1, gn, q);
            crate::plan::lemma_quotient(gx, gn, r);
            assert(r == -q) by (nonlinear_arith)
                requires
                    gn * q <= -gx + gn - 1 < gn * q + gn,
                    gn * r <= gx < gn * r + gn,
                    gn > 0,
            ;
            assert(0 <= q <= 0x4000_0000_0000_0000_0000_0000_0000_0000) by (nonlinear_arith)
                requires
                    gn * q <= -gx + gn - 1 < gn * q + gn,
                    0 < -gx <= 0x4000_0000_0000_0000_0000_0000_0000_0000,
                    gn >= 1,
            ;
        }
        -up
    }
}

/// Centred mean over a window of `k` energy frames.
pub fn boxcar(energy: &Vec<i64>, k: usize) -> (out: Vec<i64>)
    requires
        energy@.len() <= 0x4000_0000_0000_0000,
    ensures
        out@ == smoothed(energy@, k as int),
{
    let width: usize = if k < 1 {
        1
    } else {
        k
    };
    let before: usize = width / 2;
    let after: usize = width - before;
    let n: usize = energy.len();
    let mut out: Vec<i64> = Vec::new();
    let mut i: usize = 0;
    while i < n
        invariant
            i <= n,
            n == energy@.len(),
            n <= 0x4000_0000_0000_0000,
            width == width_of(k as int),
            before == width / 2,
            before + after == width,
            out@ == smoothed(energy@, k as int).take(i as int),
        decreases n - i,
    {
        let lo: usize = if i < before {
            0
        } else {
            i - before
        };
        let hi: usize = if n - i > after {
            i + after
        } else {
            n
        };
        assert((lo as int, hi as int) == window(n as int, width as int, i as int));
        let mut sum: i128 = 0;
        let mut j: usize = lo;
        while j < hi
            invariant
                lo <= j <= hi <= n,
                n == energy@.len(),
                n <= 0x4000_0000_0000_0000,
                sum == sum_between(energy@, lo as int, j as int),
                -0x8000_0000_0000_0000 * (j - lo) <= sum <= 0x8000_0000_0000_0000 * (j - lo),
            decreases hi - j,
        {
            sum = sum + energy[j] as i128;
            j += 1;
        }
        proof {
            lemma_sum_bounds(energy@, lo as int, hi as int, i64::MIN as int, i64::MAX as int);
            lemma_mean_bounds(sum as int, hi - lo, i64::MIN as int, i64::MAX as int);
        }
        let mean: i128 = floor_div(sum, (hi - lo) as i128);
        out.push(mean as i64);
        i += 1;
        assert(out@ =~= smoothed(energy@, k as int).take(i as int));
    }
    assert(smoothed(energy@, k as int).take(i as int) =~= smoothed(energy@, k as int));
    out
}

/// The number of frames in a smoothing window, made odd so that there is a
/// true centre.
pub open spec fn odd_frames(window_us: int) -> int {
    let k = if window_us < 0 {
        0
    } else {
        window_us / ENERGY_US as int
    };
    if k % 2 == 0 {
        k + 1
    } else {
        k
    }
}

/// Smoothing for the splice test and the quiet-run guard.
pub fn smooth(energy: &Vec<i64>, window_us: i64) -> (out: Vec<i64>)
    requires
        energy@.len() <= 0x4000_0000_0000_0000,
        window_us <= 1_000_000_000_000,
    ensures
        out@ == smoothed(energy@, odd_frames(window_us as int)),
{
    let mut k: usize = if window_us < 0 {
        0
    } else {
        (window_us / ENERGY_US) as usize
    };
    if k % 2 == 0 {
        k += 1;
    }
    boxcar(energy, k)
}

// ---------------------------------------------------------------------------
// Laws
// ---------------------------------------------------------------------------
proof fn lemma_sum_is_folded(energy: Seq<i64>, a: int, b: int)
    requires
        0 <= a <= b <= energy.len(),
    ensures
        sum_between(energy, a, b) == energy.subrange(a, b).fold_left(
            0int,
            |sum: int, x: i64| sum + x,
        ),
    decreases b - a,
{
    let f = |sum: int, x: i64| sum + x;
    let s = energy.subrange(a, b);
    if a < b {
        lemma_sum_is_folded(energy, a, b - 1);
        assert(s.drop_last() =~= energy.subrange(a, b - 1));
        assert(s.fold_left(0int, f) == f(s.drop_last().fold_left(0int, f), s.last()));
    }
}

/// A smoothed level is the mean, rounded down, of the `k` levels around it, half
/// of them before it, as far as the curve goes. A curve keeps its length.
pub proof fn law_smoothing_takes_the_mean(energy: Seq<i64>, k: int, i: int, a: int, b: int)
    requires
        1 <= k,
        0 <= i < energy.len(),
        a == (if i >= k / 2 {
            i - k / 2
        } else {
            0
        }),
        b == (if i - k / 2 + k <= energy.len() {
            i - k / 2 + k
        } else {
            energy.len() as int
        }),
    ensures
        smoothed(energy, k).len() == energy.len(),
        a <= i < b,
        ({
            let sum = energy.subrange(a, b).fold_left(0int, |sum: int, x: i64| sum + x);
            (b - a) * smoothed(energy, k)[i] <= sum < (b - a) * smoothed(energy, k)[i] + (b - a)
        }),
{
    lemma_sum_is_folded(energy, a, b);
    let sum = sum_between(energy, a, b);
    lemma_sum_bounds(energy, a, b, i64::MIN as int, i64::MAX as int);
    lemma_mean_bounds(sum, b - a, i64::MIN as int, i64::MAX as int);
    crate::plan::lemma_quotient(sum, b - a, sum / (b - a));
}

/// A window has a true centre: its length in frames of 10 ms is odd, and is the
/// window's own length or one frame more.
pub proof fn law_windows_have_a_centre(window_us: int)
    requires
        0 <= window_us,
    ensures
        odd_frames(window_us) % 2 == 1,
        window_us - 10_000 < 10_000 * odd_frames(window_us) <= window_us + 10_000,
{
}

} // verus!
