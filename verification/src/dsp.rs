//! Where the acoustic measurements look: frames, bands and the order of the
//! transform. The measurements themselves are made in floating point.
use vstd::prelude::*;

use crate::constants::TIME_MAX;

verus! {

/// Samples in a spectrum frame. A power of two.
pub const FRAME: usize = 512;

/// Samples from one spectrum frame to the next.
pub const HOP: usize = 160;

/// Bands of a spectrum.
pub const BANDS: usize = 24;

/// Bins of a spectrum frame.
pub const BINS: usize = 257;

// ---------------------------------------------------------------------------
// Spectrum frames
// ---------------------------------------------------------------------------
/// The sample at a time; before the start counts as the start.
pub open spec fn sample_at(t: int, rate: int) -> int {
    if t < 0 {
        0
    } else {
        t * rate / 1_000_000
    }
}

pub open spec fn at_most(a: int, b: int) -> int {
    if a < b {
        a
    } else {
        b
    }
}

/// The first sample of a span and how many frames it holds. `None` when there
/// are fewer than three.
pub open spec fn frames_in(samples: int, rate: int, a: int, b: int) -> Option<(int, int)> {
    let i0 = sample_at(a, rate);
    let i1 = at_most(sample_at(b, rate), samples);
    let frames = 1 + (i1 - i0 - FRAME) / HOP as int;
    if i1 - i0 < FRAME || frames < 3 {
        None
    } else {
        Some((i0, frames))
    }
}

fn sample_index(t: i64, rate: u32) -> (i: u128)
    requires
        t <= TIME_MAX,
    ensures
        i == sample_at(t as int, rate as int),
{
    if t < 0 {
        return 0;
    }
    let ghost (gt, gr) = (t as int, rate as int);
    assert(0 <= gt * gr <= TIME_MAX * 0xffff_ffff) by (nonlinear_arith)
        requires
            0 <= gt <= TIME_MAX,
            0 <= gr <= 0xffff_ffff,
    ;
    t as u128 * rate as u128 / 1_000_000
}

/// Lays spectrum frames over a span of a recording.
pub fn span_frames(samples: usize, rate: u32, a: i64, b: i64) -> (r: Option<(usize, usize)>)
    requires
        a <= TIME_MAX,
        b <= TIME_MAX,
    ensures
        match r {
            Some((first, frames)) => {
                &&& frames_in(samples as int, rate as int, a as int, b as int) == Some(
                    (first as int, frames as int),
                )
                &&& first + (frames - 1) * HOP + FRAME <= samples
            },
            None => frames_in(samples as int, rate as int, a as int, b as int) is None,
        },
{
    let i0: u128 = sample_index(a, rate);
    let to: u128 = sample_index(b, rate);
    let i1: u128 = if to < samples as u128 {
        to
    } else {
        samples as u128
    };
    if i1 < i0 || i1 - i0 < 512 {
        return None;
    }
    let frames: u128 = 1 + (i1 - i0 - 512) / 160;
    if frames < 3 {
        return None;
    }
    Some((i0 as usize, frames as usize))
}

// ---------------------------------------------------------------------------
// Bands
// ---------------------------------------------------------------------------
/// The first bin of a band.
pub open spec fn band_start(band: int) -> int {
    band * BINS / BANDS as int
}

/// The bins of a band.
pub fn band_bins(band: usize) -> (r: (usize, usize))
    requires
        band < BANDS,
    ensures
        r.0 == band_start(band as int),
        r.1 == band_start(band + 1),
{
    (band * 257 / 24, (band + 1) * 257 / 24)
}

/// The bands take every bin, each of them exactly once: they begin at the first
/// bin, each begins where the one before it ends, none is empty, and the last
/// ends with the last bin.
pub proof fn law_bands_take_every_bin(band: int)
    requires
        0 <= band < BANDS,
    ensures
        band_start(0) == 0,
        band_start(band) < band_start(band + 1) <= BINS,
        band_start(BANDS as int) == BINS,
{
}

// ---------------------------------------------------------------------------
// Time normalisation
// ---------------------------------------------------------------------------
/// A place between two rows: the one before, the one after, and how far along
/// it lies as a fraction.
#[derive(Clone, Copy, Debug, PartialEq, Eq, Structural)]
pub struct Between {
    pub lo: usize,
    pub hi: usize,
    pub num: usize,
    pub den: usize,
}

/// Where row `i` of `l` lies among `n` rows, ends on ends.
pub fn resample_at(i: usize, n: usize, l: usize) -> (p: Between)
    requires
        n > 0,
        i < l,
    ensures
        p.lo <= p.hi < n,
        p.hi == at_most(p.lo + 1, n - 1),
        p.num < p.den,
        // lo + num / den == i * (n - 1) / (l - 1)
        l > 1 ==> p.den == l - 1 && p.lo * p.den + p.num == i * (n - 1),
        l == 1 ==> p.lo == 0 && p.num == 0,
{
    if l == 1 {
        let hi: usize = if n > 1 {
            1
        } else {
            0
        };
        return Between { lo: 0, hi, num: 0, den: 1 };
    }
    let ghost (gi, gn, gl) = (i as int, n as int, l as int);
    assert(0 <= gi * (gn - 1) <= (gl - 1) * (gn - 1)) by (nonlinear_arith)
        requires
            0 <= gi <= gl - 1,
            0 <= gn - 1,
    ;
    assert((gl - 1) * (gn - 1) <= 0xffff_ffff_ffff_ffff * 0xffff_ffff_ffff_ffff)
        by (nonlinear_arith)
        requires
            0 <= gl - 1 <= 0xffff_ffff_ffff_ffff,
            0 <= gn - 1 <= 0xffff_ffff_ffff_ffff,
    ;
    let x: u128 = i as u128 * (n - 1) as u128;
    let den: u128 = (l - 1) as u128;
    let q: u128 = x / den;
    let r: u128 = x % den;
    proof {
        vstd::arithmetic::div_mod::lemma_fundamental_div_mod(x as int, den as int);
        let (gq, gr) = (q as int, r as int);
        assert(gq <= gn - 1) by (nonlinear_arith)
            requires
                (gl - 1) * gq + gr <= (gl - 1) * (gn - 1),
                gr >= 0,
                gl - 1 >= 1,
        ;
        assert(gq * (gl - 1) == (gl - 1) * gq) by (nonlinear_arith);
    }
    let lo: usize = q as usize;
    let hi: usize = if lo < n - 1 {
        lo + 1
    } else {
        n - 1
    };
    Between { lo, hi, num: r as usize, den: den as usize }
}

// ---------------------------------------------------------------------------
// The order of the transform
// ---------------------------------------------------------------------------
pub open spec fn two_to(bits: nat) -> nat
    decreases bits,
{
    if bits == 0 {
        1
    } else {
        2 * two_to((bits - 1) as nat)
    }
}

/// `i` with its lowest `bits` binary digits in the opposite order.
pub open spec fn reversed(i: nat, bits: nat) -> nat
    decreases bits,
{
    if bits == 0 {
        0
    } else {
        (i % 2) * two_to((bits - 1) as nat) + reversed(i / 2, (bits - 1) as nat)
    }
}

pub proof fn lemma_reversed_fits(i: nat, bits: nat)
    ensures
        reversed(i, bits) < two_to(bits),
    decreases bits,
{
    if bits > 0 {
        lemma_reversed_fits(i / 2, (bits - 1) as nat);
        let p = two_to((bits - 1) as nat) as int;
        let d = (i % 2) as int;
        assert(d * p <= p) by (nonlinear_arith)
            requires
                0 <= d <= 1,
                p >= 0,
        ;
    }
}

/// The digit added in front comes out last.
proof fn lemma_reversed_top(i: nat, d: nat, bits: nat)
    requires
        i < two_to(bits),
        d < 2,
    ensures
        reversed((d * two_to(bits) + i) as nat, bits + 1) == 2 * reversed(i, bits) + d,
    decreases bits,
{
    let p = two_to(bits) as int;
    let x = (d * two_to(bits) + i) as nat;
    if bits == 0 {
        assert(d * p == d) by (nonlinear_arith)
            requires
                p == 1,
        ;
        assert(x == d);
        assert(reversed(x / 2, 0) == 0);
        assert((x % 2) * two_to(0) == x % 2) by (nonlinear_arith)
            requires
                two_to(0) == 1,
        ;
        assert(reversed(x, 1) == (x % 2) * two_to(0) + reversed(x / 2, 0));
    } else {
        let h = two_to((bits - 1) as nat) as int;
        assert(p == 2 * h);
        assert(d * p == 2 * (d * h)) by (nonlinear_arith)
            requires
                p == 2 * h,
        ;
        assert(x % 2 == i % 2 && x / 2 == d * h + (i / 2));
        lemma_reversed_top(i / 2, d, (bits - 1) as nat);
        assert(reversed(x, bits + 1) == (i % 2) * two_to(bits) + reversed(x / 2, bits));
        let e = (i % 2) as int;
        assert(e * p == 2 * (e * h)) by (nonlinear_arith)
            requires
                p == 2 * h,
        ;
    }
}

/// Reversing twice changes nothing: the transform's order is a pairing, and
/// putting samples into it swaps them two by two.
pub proof fn law_reversing_twice(i: nat, bits: nat)
    requires
        i < two_to(bits),
    ensures
        reversed(i, bits) < two_to(bits),
        reversed(reversed(i, bits), bits) == i,
    decreases bits,
{
    lemma_reversed_fits(i, bits);
    if bits > 0 {
        let b = (bits - 1) as nat;
        let r = reversed(i / 2, b);
        law_reversing_twice(i / 2, b);
        lemma_reversed_top(r, i % 2, b);
    }
}

/// `order` is the transform's order for frames of two to the `bits` samples.
pub open spec fn is_reversal(order: Seq<usize>, bits: nat) -> bool {
    &&& order.len() == two_to(bits)
    &&& forall|i: int| 0 <= i < order.len() ==> #[trigger] order[i] == reversed(i as nat, bits)
}

/// The order for one more digit: the old one doubled, and the same again with
/// one added.
proof fn lemma_longer_order(a: Seq<usize>, b: Seq<usize>, bits: nat)
    requires
        is_reversal(a, bits),
        b.len() == 2 * a.len(),
        forall|i: int| 0 <= i < a.len() ==> #[trigger] b[i] == 2 * a[i],
        forall|i: int| a.len() <= i < b.len() ==> #[trigger] b[i] == 2 * a[i - a.len()] + 1,
    ensures
        is_reversal(b, bits + 1),
{
    let n = a.len() as int;
    assert forall|i: int| 0 <= i < b.len() implies #[trigger] b[i] == reversed(
        i as nat,
        bits + 1,
    ) by {
        if i < n {
            lemma_reversed_top(i as nat, 0, bits);
            assert(b[i] == 2 * a[i]);
        } else {
            lemma_reversed_top((i - n) as nat, 1, bits);
            assert(b[i] == 2 * a[i - n] + 1);
        }
    }
}

fn longer_order(order: &Vec<usize>, Ghost(bits): Ghost<nat>) -> (out: Vec<usize>)
    requires
        is_reversal(order@, bits),
        order@.len() <= 0x4000_0000,
    ensures
        is_reversal(out@, bits + 1),
{
    let len: usize = order.len();
    let mut out: Vec<usize> = Vec::new();
    let mut k: usize = 0;
    while k < 2 * len
        invariant
            k <= 2 * len,
            len == order@.len(),
            len <= 0x4000_0000,
            is_reversal(order@, bits),
            out@.len() == k,
            forall|i: int| 0 <= i < k && i < len ==> #[trigger] out@[i] == 2 * order@[i],
            forall|i: int| len <= i < k ==> #[trigger] out@[i] == 2 * order@[i - len] + 1,
        decreases 2 * len - k,
    {
        let from: usize = if k < len {
            k
        } else {
            k - len
        };
        proof {
            lemma_reversed_fits(from as nat, bits);
            assert(order@[from as int] == reversed(from as nat, bits));
        }
        let v: usize = 2 * order[from];
        out.push(
            if k < len {
                v
            } else {
                v + 1
            },
        );
        k += 1;
    }
    proof {
        lemma_longer_order(order@, out@, bits);
    }
    out
}

/// The transform's order for frames of two to the `bits` samples.
pub fn bit_reversal(bits: u32) -> (order: Vec<usize>)
    requires
        bits <= 31,
    ensures
        is_reversal(order@, bits as nat),
{
    let mut order: Vec<usize> = Vec::new();
    order.push(0);
    let mut b: u32 = 0;
    while b < bits
        invariant
            b <= bits <= 31,
            is_reversal(order@, b as nat),
        decreases bits - b,
    {
        proof {
            lemma_two_to_grows(b as nat, 30);
            assert(two_to(30) == 0x4000_0000) by {
                reveal_with_fuel(two_to, 31);
            }
        }
        order = longer_order(&order, Ghost(b as nat));
        b += 1;
    }
    order
}

proof fn lemma_two_to_grows(a: nat, b: nat)
    requires
        a <= b,
    ensures
        two_to(a) <= two_to(b),
    decreases b,
{
    if a < b {
        lemma_two_to_grows(a, (b - 1) as nat);
    }
}

// ---------------------------------------------------------------------------
// Energy frames
// ---------------------------------------------------------------------------
/// How many energy frames a recording has: one for every hundredth of a second
/// that is complete.
pub fn energy_frames(samples: usize, rate: u32) -> (n: usize)
    requires
        rate >= 100,
    ensures
        n == samples as int / (rate as int / 100),
{
    let hop: usize = rate as usize / 100;
    samples / hop
}

/// The samples of an energy frame: 32 ms from its start, or as much as is left.
pub fn energy_span(i: usize, samples: usize, rate: u32) -> (r: (usize, usize))
    requires
        rate >= 100,
        i < samples as int / (rate as int / 100),
    ensures
        r.0 == i * (rate as int / 100),
        r.1 == at_most(r.0 + rate * 32 / 1000, samples as int),
        r.0 < r.1 <= samples,
{
    let hop: usize = rate as usize / 100;
    let ghost (gi, gh, gs) = (i as int, hop as int, samples as int);
    proof {
        crate::plan::lemma_quotient(gs, gh, gs / gh);
        assert(0 <= gi * gh && gi * gh + gh <= gs) by (nonlinear_arith)
            requires
                0 <= gi,
                gi + 1 <= gs / gh,
                gh * (gs / gh) <= gs,
                gh > 0,
        ;
    }
    let lo: usize = i * hop;
    let win: u64 = rate as u64 * 32 / 1000;
    let hi: u128 = lo as u128 + win as u128;
    if hi < samples as u128 {
        (lo, hi as usize)
    } else {
        (lo, samples)
    }
}

// ---------------------------------------------------------------------------
// Laws
// ---------------------------------------------------------------------------
/// A stretch of the recording, from sample `i0` up to sample `i1`, holds as many
/// frames of 512 samples, 160 apart, as fit in it; fewer than three are none.
pub proof fn law_as_many_frames_as_fit(
    samples: int,
    rate: int,
    a: int,
    b: int,
    i0: int,
    i1: int,
)
    requires
        0 <= rate,
        0 <= a,
        0 <= b,
        1_000_000 * i0 <= a * rate < 1_000_000 * i0 + 1_000_000,
        i1 <= samples,
        1_000_000 * i1 <= b * rate,
        i1 == samples || b * rate < 1_000_000 * i1 + 1_000_000,
    ensures
        frames_in(samples, rate, a, b) is Some <==> i1 - i0 >= 2 * 160 + 512,
        frames_in(samples, rate, a, b) matches Some((first, n)) ==> first == i0 && 160 * (n - 1)
            + 512 <= i1 - i0 < 160 * n + 512,
{
    crate::plan::lemma_quotient(a * rate, 1_000_000, sample_at(a, rate));
    crate::plan::lemma_quotient(b * rate, 1_000_000, sample_at(b, rate));
}

/// The 257 bins are shared out evenly among 24 bands.
pub proof fn law_bands_share_the_bins_evenly(band: int)
    ensures
        24 * band_start(band) <= 257 * band < 24 * band_start(band) + 24,
{
}

} // verus!
