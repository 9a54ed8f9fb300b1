//! The monitor loop. THE MODEL PROPOSES. THE MEASUREMENT DECIDES.
//!
//! The model is not a judge. It gets one step's diagnostic, the current
//! parameter values and one sentence of causal guidance, and answers with a
//! parameter and a direction. The step is run again with that parameter
//! nudged, both results are scored, and the higher score is kept.
//!
//! Guards are not adjustable: the only parameter taken up is the speech
//! threshold. With no model the answer counts as approval.
use vstd::prelude::*;

use crate::captions::Word;
use crate::constants::{GRID_US, TIME_MAX};
use crate::mask::{count_set, inverted};
use crate::num::{fixed, show_fixed};
use crate::text::same;
use crate::vad::{exit_for, exit_threshold, speech_mask, speech_mask_of};

verus! {

/// What the model proposes.
#[derive(Debug)]
pub struct Decision {
    pub ok: bool,
    pub parameter: String,
    pub direction: String,
    pub reason: String,
}

impl Decision {
    /// No change.
    pub fn approve(reason: &str) -> (d: Self)
        ensures
            d.ok,
            d.parameter@ == "none"@,
            d.direction@ == "none"@,
            d.reason@ == reason@,
    {
        Decision {
            ok: true,
            parameter: "none".to_string(),
            direction: "none".to_string(),
            reason: reason.to_string(),
        }
    }
}

/// What came back from the model.
#[derive(Debug)]
pub enum Reply {
    /// The request failed.
    Unreachable,
    /// The reply was not what the service sends.
    BadEnvelope,
    /// The service answered, but not with a decision.
    BadJson,
    Decided(Decision),
}

/// The decision in a reply. Anything but a readable decision is approval.
pub fn review(reply: Reply) -> (d: Decision)
    ensures
        match reply {
            Reply::Decided(x) => d == x,
            Reply::Unreachable => d.ok && d.parameter@ == "none"@ && d.direction@ == "none"@
                && d.reason@ == "model unavailable"@,
            Reply::BadEnvelope => d.ok && d.parameter@ == "none"@ && d.direction@ == "none"@
                && d.reason@ == "model unavailable (bad envelope)"@,
            Reply::BadJson => d.ok && d.parameter@ == "none"@ && d.direction@ == "none"@
                && d.reason@ == "model unavailable (bad JSON)"@,
        },
{
    match reply {
        Reply::Decided(d) => d,
        Reply::Unreachable => Decision::approve("model unavailable"),
        Reply::BadEnvelope => Decision::approve("model unavailable (bad envelope)"),
        Reply::BadJson => Decision::approve("model unavailable (bad JSON)"),
    }
}

/// What the model is asked. It is not asked whether a step passed: `guide` is
/// one sentence on which way a parameter moves behaviour.
pub fn review_prompt(step: &str, diag: &str, params: &str, guide: &str) -> (r: String)
    ensures
        r@ == "Monitoring one step of a video editor.\n\nSTEP: "@ + step@ + "\n\nDIAGNOSTIC:\n"@
            + diag@ + "\n\nPARAMETERS: "@ + params@ + "\n\n"@ + guide@
            + "\n\nIf acceptable: ok=true, parameter=\"none\", direction=\"none\". Otherwise name ONE parameter and a direction.\nReply JSON."@,
{
    let mut r = String::new();
    r.append("Monitoring one step of a video editor.\n\nSTEP: ");
    r.append(step);
    r.append("\n\nDIAGNOSTIC:\n");
    r.append(diag);
    r.append("\n\nPARAMETERS: ");
    r.append(params);
    r.append("\n\n");
    r.append(guide);
    r.append("\n\nIf acceptable: ok=true, parameter=\"none\", direction=\"none\". Otherwise name ONE parameter and a direction.\nReply JSON.");
    assert(r@ =~= "Monitoring one step of a video editor.\n\nSTEP: "@ + step@
        + "\n\nDIAGNOSTIC:\n"@ + diag@ + "\n\nPARAMETERS: "@ + params@ + "\n\n"@ + guide@
        + "\n\nIf acceptable: ok=true, parameter=\"none\", direction=\"none\". Otherwise name ONE parameter and a direction.\nReply JSON."@);
    r
}

// ---------------------------------------------------------------------------
// The judge
// ---------------------------------------------------------------------------
/// The grid slice that holds a moment; before the start counts as the first.
pub open spec fn slice_of(t: int) -> int {
    if t < 0 {
        0
    } else {
        t / GRID_US as int
    }
}

/// The word covers grid slice `i`.
pub open spec fn covers(w: Word, i: int) -> bool {
    slice_of(w.start as int) <= i < slice_of(w.end as int)
}

/// Some word covers grid slice `i`.
pub open spec fn is_spoken(words: Seq<Word>, i: int) -> bool {
    exists|k: int| 0 <= k < words.len() && covers(#[trigger] words[k], i)
}

/// One flag per slice: whether a word covers it.
pub open spec fn spoken_mask(words: Seq<Word>, grid_len: nat) -> Seq<bool> {
    Seq::new(grid_len, |i: int| is_spoken(words, i))
}

/// The slices where both masks, the first of them or its opposite, are set.
pub open spec fn both(spoken: Seq<bool>, mask: Seq<bool>, v: bool) -> Seq<bool> {
    Seq::new(spoken.len(), |i: int| spoken[i] == v && mask[i])
}

/// How a speech mask compares with the transcript, as exact counts.
#[derive(Clone, Copy, Debug, PartialEq, Eq, Structural)]
pub struct Score {
    /// Slices with a word.
    pub word_n: usize,
    /// Slices with a word that the mask marks.
    pub word_hit: usize,
    /// Slices without a word.
    pub gap_n: usize,
    /// Slices without a word that the mask marks.
    pub gap_hit: usize,
}

pub open spec fn nonzero(n: int) -> int {
    if n == 0 {
        1
    } else {
        n
    }
}

/// The two numbers make up a grid, so neither their product nor a part of it
/// leaves 126 bits.
proof fn lemma_grid_products(w: int, g: int, hw: int, hg: int)
    requires
        0 <= hw <= w,
        0 <= hg <= g,
        w + g <= 0x1_0000_0000_0000_0000,
    ensures
        0 <= w * g <= 0x4000_0000_0000_0000_0000_0000_0000_0000,
        0 <= hw * g <= w * g,
        0 <= hg * w <= w * g,
{
    let n = w + g;
    let d = w - g;
    assert(d * d >= 0) by (nonlinear_arith);
    assert(n * n == d * d + 4 * (w * g)) by (nonlinear_arith)
        requires
            n == w + g,
            d == w - g,
    ;
    assert(n * n <= 0x1_0000_0000_0000_0000_0000_0000_0000_0000) by (nonlinear_arith)
        requires
            0 <= n <= 0x1_0000_0000_0000_0000,
    ;
    assert(0 <= hw * g <= w * g && 0 <= hg * w <= w * g) by (nonlinear_arith)
        requires
            0 <= hw <= w,
            0 <= hg <= g,
    ;
}

/// `m` times the fraction `a / b`, as a whole part and what is left over.
fn times(m: u32, a: u128, b: u128) -> (r: (u32, u128))
    requires
        m <= 1_000_000,
        a <= b,
        0 < b <= 0x4000_0000_0000_0000_0000_0000_0000_0000,
    ensures
        m * a == r.0 * b + r.1,
        r.1 < b,
        r.0 <= m,
    decreases m,
{
    if m == 0 {
        assert(0 * a == 0 && 0 * b == 0) by (nonlinear_arith);
        return (0, 0);
    }
    let (half, left): (u32, u128) = times(m / 2, a, b);
    let ghost (gm, ga, gb, gh, gl) = (m as int, a as int, b as int, half as int, left as int);
    let odd = m % 2 == 1;
    let mut q: u32 = 2 * half;
    let mut r: u128 = 2 * left;
    if r >= b {
        r = r - b;
        q = q + 1;
    }
    let ghost (q1, r1) = (q as int, r as int);
    assert(2 * ((gm / 2) * ga) == q1 * gb + r1) by (nonlinear_arith)
        requires
            (gm / 2) * ga == gh * gb + gl,
            (q1 == 2 * gh && r1 == 2 * gl) || (q1 == 2 * gh + 1 && r1 == 2 * gl - gb),
    ;
    if odd {
        r = r + a;
        if r >= b {
            r = r - b;
            q = q + 1;
        }
    }
    proof {
        let (gq, gr) = (q as int, r as int);
        if odd {
            assert(gm == 2 * (gm / 2) + 1);
            assert(gm * ga == gq * gb + gr) by (nonlinear_arith)
                requires
                    gm == 2 * (gm / 2) + 1,
                    2 * ((gm / 2) * ga) == q1 * gb + r1,
                    (gq == q1 && gr == r1 + ga) || (gq == q1 + 1 && gr == r1 + ga - gb),
            ;
        } else {
            assert(gm == 2 * (gm / 2));
            assert(gm * ga == gq * gb + gr) by (nonlinear_arith)
                requires
                    gm == 2 * (gm / 2),
                    2 * ((gm / 2) * ga) == q1 * gb + r1,
                    gq == q1 && gr == r1,
            ;
        }
        assert(gq <= gm) by (nonlinear_arith)
            requires
                gm * ga == gq * gb + gr,
                0 <= gr,
                0 <= ga <= gb,
                0 < gb,
                0 <= gm,
        ;
    }
    (q, r)
}

impl Score {
    /// The counts of one grid.
    pub open spec fn wf(&self) -> bool {
        &&& self.word_hit <= self.word_n
        &&& self.gap_hit <= self.gap_n
        &&& self.word_n + self.gap_n <= usize::MAX
    }

    /// Coverage of words less the false-alarm rate outside words, as a
    /// fraction: its numerator. A rate over nothing counts as zero.
    pub open spec fn num(&self) -> int {
        self.word_hit * nonzero(self.gap_n as int) - self.gap_hit * nonzero(self.word_n as int)
    }

    /// ... and its denominator.
    pub open spec fn den(&self) -> int {
        nonzero(self.word_n as int) * nonzero(self.gap_n as int)
    }

    /// Two scores that can be compared: of masks over one transcript, or small
    /// enough for the cross products.
    pub open spec fn comparable(&self, other: &Score) -> bool {
        ||| self.word_n == other.word_n && self.gap_n == other.gap_n
        ||| self.den() <= 0x1000_0000_0000_0000 && other.den() <= 0x1000_0000_0000_0000
    }

    fn fraction(&self) -> (r: (i128, i128))
        requires
            self.wf(),
        ensures
            r.0 == self.num(),
            r.1 == self.den(),
            -r.1 <= r.0 <= r.1,
            0 < r.1 <= 0x4000_0000_0000_0000_0000_0000_0000_0000,
    {
        let w: i128 = if self.word_n == 0 {
            1
        } else {
            self.word_n as i128
        };
        let g: i128 = if self.gap_n == 0 {
            1
        } else {
            self.gap_n as i128
        };
        proof {
            lemma_grid_products(w as int, g as int, self.word_hit as int, self.gap_hit as int);
            self.lemma_within_one();
        }
        (self.word_hit as i128 * g - self.gap_hit as i128 * w, w * g)
    }

    /// A score at or below zero means that the mask marks silence as often as
    /// speech: no basis for preferring one mask to another.
    pub fn informative(&self) -> (b: bool)
        requires
            self.wf(),
        ensures
            b == (self.num() > 0),
    {
        self.fraction().0 > 0
    }

    /// Strictly better than the other score.
    pub fn better_than(&self, other: &Score) -> (b: bool)
        requires
            self.wf(),
            other.wf(),
            self.comparable(other),
        ensures
            b == (self.num() * other.den() > other.num() * self.den()),
    {
        let (a, b) = self.fraction();
        let (c, d) = other.fraction();
        let ghost (ga, gb, gc, gd) = (a as int, b as int, c as int, d as int);
        if self.word_n == other.word_n && self.gap_n == other.gap_n {
            assert((ga > gc) == (ga * gd > gc * gb)) by (nonlinear_arith)
                requires
                    gb == gd,
                    gb > 0,
            ;
            return a > c;
        }
        assert(-0x100_0000_0000_0000_0000_0000_0000_0000 <= ga * gd
            <= 0x100_0000_0000_0000_0000_0000_0000_0000) by (nonlinear_arith)
            requires
                -0x1000_0000_0000_0000 <= ga <= 0x1000_0000_0000_0000,
                0 < gd <= 0x1000_0000_0000_0000,
        ;
        assert(-0x100_0000_0000_0000_0000_0000_0000_0000 <= gc * gb
            <= 0x100_0000_0000_0000_0000_0000_0000_0000) by (nonlinear_arith)
            requires
                -0x1000_0000_0000_0000 <= gc <= 0x1000_0000_0000_0000,
                0 < gb <= 0x1000_0000_0000_0000,
        ;
        a * d > c * b
    }

    /// The score in millionths, rounded down.
    pub fn millionths(&self) -> (m: i64)
        requires
            self.wf(),
        ensures
            m == self.num() * 1_000_000 / self.den(),
            -1_000_000 <= m <= 1_000_000,
    {
        let (a, b) = self.fraction();
        let size: i128 = if a < 0 {
            -a
        } else {
            a
        };
        let (q, r): (u32, u128) = times(1_000_000, size as u128, b as u128);
        let m: i64 = if a >= 0 {
            q as i64
        } else if r == 0 {
            -(q as i64)
        } else {
            -(q as i64) - 1
        };
        proof {
            let (n, d, gm, gq, gr) = (a as int, b as int, m as int, q as int, r as int);
            crate::plan::lemma_quotient(n * 1_000_000, d, n * 1_000_000 / d);
            let k = n * 1_000_000 / d;
            assert(k == gm) by (nonlinear_arith)
                requires
                    d * k <= n * 1_000_000 < d * k + d,
                    0 <= gr < d,
                    (n >= 0 && 1_000_000 * n == gq * d + gr && gm == gq) || (n < 0 && 1_000_000 * (
                    -n) == gq * d + gr && (if gr == 0 {
                        gm == -gq
                    } else {
                        gm == -gq - 1
                    })),
            ;
            assert(-1_000_000 <= k <= 1_000_000) by (nonlinear_arith)
                requires
                    d * k <= n * 1_000_000 < d * k + d,
                    -d <= n <= d,
                    d > 0,
            ;
        }
        m
    }

    /// The score never leaves the range from minus one to one.
    pub proof fn lemma_within_one(&self)
        requires
            self.wf(),
        ensures
            -self.den() <= self.num() <= self.den(),
            self.den() > 0,
    {
        let (hw, hg) = (self.word_hit as int, self.gap_hit as int);
        let (w, g) = (nonzero(self.word_n as int), nonzero(self.gap_n as int));
        assert(-(w * g) <= hw * g - hg * w <= w * g && w * g > 0) by (nonlinear_arith)
            requires
                0 <= hw <= w,
                0 <= hg <= g,
                w > 0,
                g > 0,
        ;
    }
}

fn slice(t: i64) -> (i: u64)
    ensures
        i == slice_of(t as int),
{
    if t < 0 {
        0
    } else {
        (t / GRID_US) as u64
    }
}

fn mark_spoken(words: &Vec<Word>, grid_len: usize) -> (out: Vec<bool>)
    ensures
        out@ == spoken_mask(words@, grid_len as nat),
{
    let mut out: Vec<bool> = Vec::new();
    let mut i: usize = 0;
    while i < grid_len
        invariant
            i <= grid_len,
            out@.len() == i,
            forall|q: int| 0 <= q < i ==> !(#[trigger] out@[q]),
        decreases grid_len - i,
    {
        out.push(false);
        i += 1;
    }
    let mut k: usize = 0;
    while k < words.len()
        invariant
            k <= words@.len(),
            out@.len() == grid_len,
            forall|q: int|
                0 <= q < grid_len ==> #[trigger] out@[q] == is_spoken(words@.take(k as int), q),
        decreases words@.len() - k,
    {
        let a: u64 = slice(words[k].start);
        let b: u64 = slice(words[k].end);
        let from: usize = if a < grid_len as u64 {
            a as usize
        } else {
            grid_len
        };
        let to: usize = if b < grid_len as u64 {
            b as usize
        } else {
            grid_len
        };
        let ghost before = out@;
        if from < to {
            crate::mask::fill(&mut out, from, to, true);
        }
        proof {
            let t = words@.take(k as int);
            let t1 = words@.take(k + 1);
            assert forall|q: int| 0 <= q < grid_len implies #[trigger] out@[q] == is_spoken(
                t1,
                q,
            ) by {
                if is_spoken(t, q) {
                    let j = choose|j: int| 0 <= j < t.len() && covers(#[trigger] t[j], q);
                    assert(covers(t1[j], q));
                }
                if covers(words@[k as int], q) {
                    assert(covers(t1[k as int], q));
                }
                if is_spoken(t1, q) {
                    let j = choose|j: int| 0 <= j < t1.len() && covers(#[trigger] t1[j], q);
                    if j < k {
                        assert(covers(t[j], q));
                    }
                }
                assert(before[q] == is_spoken(t, q));
            }
        }
        k += 1;
    }
    assert(words@.take(k as int) =~= words@);
    assert(out@ =~= spoken_mask(words@, grid_len as nat));
    out
}

/// The score of a mask against the transcript.
pub open spec fn score_of(mask: Seq<bool>, words: Seq<Word>, grid_len: nat) -> Score {
    let spoken = spoken_mask(words, grid_len);
    Score {
        word_n: count_set(spoken) as usize,
        word_hit: count_set(both(spoken, mask, true)) as usize,
        gap_n: (grid_len - count_set(spoken)) as usize,
        gap_hit: count_set(both(spoken, mask, false)) as usize,
    }
}

/// THE JUDGE. Word coverage and the false-alarm rate outside words: the only
/// thing allowed to decide whether a proposed change is kept.
pub fn speech_score(mask: &Vec<bool>, words: &Vec<Word>, grid_len: usize) -> (s: Score)
    requires
        grid_len <= mask@.len(),
    ensures
        s == score_of(mask@, words@, grid_len as nat),
        s.wf(),
{
    let spoken = mark_spoken(words, grid_len);
    let ghost sp = spoken@;
    let ghost hit = both(sp, mask@, true);
    let ghost miss = both(sp, mask@, false);
    let mut s = Score { word_n: 0, word_hit: 0, gap_n: 0, gap_hit: 0 };
    let mut i: usize = 0;
    while i < grid_len
        invariant
            i <= grid_len <= mask@.len(),
            sp == spoken@,
            sp.len() == grid_len,
            hit == both(sp, mask@, true),
            miss == both(sp, mask@, false),
            s.word_n == count_set(sp.take(i as int)),
            s.word_hit == count_set(hit.take(i as int)),
            s.gap_n == i - count_set(sp.take(i as int)),
            s.gap_hit == count_set(miss.take(i as int)),
            s.word_hit <= s.word_n,
            s.gap_hit <= s.gap_n,
            s.word_n + s.gap_n == i,
        decreases grid_len - i,
    {
        assert(sp.take(i + 1).drop_last() =~= sp.take(i as int));
        assert(hit.take(i + 1).drop_last() =~= hit.take(i as int));
        assert(miss.take(i + 1).drop_last() =~= miss.take(i as int));
        if spoken[i] {
            s.word_n = s.word_n + 1;
            if mask[i] {
                s.word_hit = s.word_hit + 1;
            }
        } else {
            s.gap_n = s.gap_n + 1;
            if mask[i] {
                s.gap_hit = s.gap_hit + 1;
            }
        }
        i += 1;
    }
    assert(sp.take(i as int) =~= sp);
    assert(hit.take(i as int) =~= hit);
    assert(miss.take(i as int) =~= miss);
    s
}

/// A mask that is set only where another is has no more bits, and as many only
/// if it is the same.
proof fn lemma_count_within(a: Seq<bool>, b: Seq<bool>)
    requires
        a.len() == b.len(),
        forall|i: int| 0 <= i < a.len() && #[trigger] a[i] ==> b[i],
    ensures
        count_set(a) <= count_set(b) <= b.len(),
        count_set(a) == count_set(b) <==> a == b,
    decreases a.len(),
{
    if a.len() > 0 {
        let (fa, fb) = (a.drop_last(), b.drop_last());
        assert forall|i: int| 0 <= i < fa.len() && #[trigger] fa[i] implies fb[i] by {
            assert(a[i]);
        }
        lemma_count_within(fa, fb);
        assert(a.last() == a[a.len() - 1] && b.last() == b[b.len() - 1]);
        if count_set(a) == count_set(b) {
            assert(fa == fb);
            assert(a =~= fa.push(a.last()));
            assert(b =~= fb.push(b.last()));
        }
    } else {
        assert(a =~= b);
    }
}

proof fn lemma_count_inverted(mask: Seq<bool>)
    ensures
        count_set(inverted(mask)) + count_set(mask) == mask.len(),
    decreases mask.len(),
{
    if mask.len() > 0 {
        lemma_count_inverted(mask.drop_last());
        assert(inverted(mask).drop_last() =~= inverted(mask.drop_last()));
        assert(inverted(mask).last() == !mask.last());
    }
}

proof fn lemma_count_empty(mask: Seq<bool>)
    ensures
        count_set(mask) == 0 <==> forall|i: int| 0 <= i < mask.len() ==> !#[trigger] mask[i],
{
    let none = Seq::new(mask.len(), |i: int| false);
    lemma_count_within(none, mask);
    lemma_none_set(none);
    if count_set(mask) == 0 {
        assert(none == mask);
        assert forall|i: int| 0 <= i < mask.len() implies !#[trigger] mask[i] by {
            assert(!none[i]);
        }
    } else if forall|i: int| 0 <= i < mask.len() ==> !#[trigger] mask[i] {
        assert(none =~= mask);
    }
}

proof fn lemma_none_set(mask: Seq<bool>)
    requires
        forall|i: int| 0 <= i < mask.len() ==> !#[trigger] mask[i],
    ensures
        count_set(mask) == 0,
    decreases mask.len(),
{
    if mask.len() > 0 {
        let front = mask.drop_last();
        assert forall|i: int| 0 <= i < front.len() implies !#[trigger] front[i] by {
            assert(!mask[i]);
        }
        lemma_none_set(front);
        assert(!mask[mask.len() - 1]);
    }
}

/// The counts of a score are those of one grid.
proof fn lemma_score_counts(mask: Seq<bool>, words: Seq<Word>, grid_len: nat)
    requires
        grid_len <= usize::MAX,
    ensures
        ({
            let s = score_of(mask, words, grid_len);
            let spoken = spoken_mask(words, grid_len);
            &&& s.wf()
            &&& s.word_n + s.gap_n == grid_len
            &&& s.word_n == count_set(spoken)
            &&& s.gap_n == count_set(inverted(spoken))
            &&& s.word_hit == count_set(both(spoken, mask, true))
            &&& s.gap_hit == count_set(both(spoken, mask, false))
        }),
{
    let spoken = spoken_mask(words, grid_len);
    lemma_count_within(both(spoken, mask, true), spoken);
    lemma_count_within(both(spoken, mask, false), inverted(spoken));
    lemma_count_inverted(spoken);
}

/// The score of a mask lies between minus one and one.
pub proof fn law_the_score_is_within_one(mask: Seq<bool>, words: Seq<Word>, grid_len: nat)
    requires
        grid_len <= usize::MAX,
    ensures
        ({
            let s = score_of(mask, words, grid_len);
            -s.den() <= s.num() <= s.den() && s.den() > 0
        }),
{
    lemma_score_counts(mask, words, grid_len);
    score_of(mask, words, grid_len).lemma_within_one();
}

/// Only a mask that marks every slice with a word, and no other slice, scores
/// one.
pub proof fn law_only_a_perfect_mask_scores_one(mask: Seq<bool>, words: Seq<Word>, grid_len: nat)
    requires
        grid_len <= usize::MAX,
    ensures
        score_of(mask, words, grid_len).num() == score_of(mask, words, grid_len).den() <==> (
        exists|i: int| 0 <= i < grid_len && #[trigger] is_spoken(words, i)) && (forall|i: int|
            0 <= i < grid_len ==> mask[i] == #[trigger] is_spoken(words, i)),
{
    let s = score_of(mask, words, grid_len);
    let spoken = spoken_mask(words, grid_len);
    let (hit, miss) = (both(spoken, mask, true), both(spoken, mask, false));
    lemma_score_counts(mask, words, grid_len);
    lemma_count_empty(spoken);
    lemma_count_within(hit, spoken);
    lemma_count_empty(miss);
    let (hw, hg) = (s.word_hit as int, s.gap_hit as int);
    let (w, g) = (nonzero(s.word_n as int), nonzero(s.gap_n as int));
    assert(hw * g - hg * w == w * g <==> hw == w && hg == 0) by (nonlinear_arith)
        requires
            0 <= hw <= w,
            0 <= hg <= g,
            w > 0,
            g > 0,
    ;
    let marked = forall|i: int|
        0 <= i < grid_len ==> mask[i] == #[trigger] is_spoken(words, i);
    if s.num() == s.den() {
        assert(s.word_n > 0);
        assert(hit == spoken);
        let i = choose|i: int| 0 <= i < spoken.len() && #[trigger] spoken[i];
        assert(is_spoken(words, i));
        assert forall|i: int| 0 <= i < grid_len implies mask[i] == #[trigger] is_spoken(
            words,
            i,
        ) by {
            assert(hit[i] == spoken[i]);
            assert(!miss[i]);
        }
    }
    if marked && exists|i: int| 0 <= i < grid_len && #[trigger] is_spoken(words, i) {
        let i = choose|i: int| 0 <= i < grid_len && #[trigger] is_spoken(words, i);
        assert(spoken[i]);
        assert forall|i: int| 0 <= i < miss.len() implies !#[trigger] miss[i] by {
            assert(mask[i] == is_spoken(words, i));
        }
        assert(hit =~= spoken) by {
            assert forall|i: int| 0 <= i < hit.len() implies hit[i] == spoken[i] by {
                assert(mask[i] == is_spoken(words, i));
            }
        }
    }
}

/// A mask that marks everything, or nothing, scores zero where there are slices
/// with words and slices without.
pub proof fn law_a_constant_mask_scores_nothing(
    mask: Seq<bool>,
    words: Seq<Word>,
    grid_len: nat,
    v: bool,
)
    requires
        grid_len <= usize::MAX,
        forall|i: int| 0 <= i < grid_len ==> #[trigger] mask[i] == v,
        exists|i: int| 0 <= i < grid_len && #[trigger] is_spoken(words, i),
        exists|i: int| 0 <= i < grid_len && !#[trigger] is_spoken(words, i),
    ensures
        score_of(mask, words, grid_len).num() == 0,
{
    let s = score_of(mask, words, grid_len);
    let spoken = spoken_mask(words, grid_len);
    let (hit, miss) = (both(spoken, mask, true), both(spoken, mask, false));
    lemma_score_counts(mask, words, grid_len);
    lemma_count_empty(spoken);
    lemma_count_empty(inverted(spoken));
    let i = choose|i: int| 0 <= i < grid_len && #[trigger] is_spoken(words, i);
    assert(spoken[i]);
    let j = choose|i: int| 0 <= i < grid_len && !#[trigger] is_spoken(words, i);
    assert(inverted(spoken)[j]);
    let (w, g) = (s.word_n as int, s.gap_n as int);
    if v {
        assert(hit =~= spoken);
        assert(miss =~= inverted(spoken));
        assert(w * g - g * w == 0) by (nonlinear_arith);
    } else {
        lemma_count_empty(hit);
        lemma_count_empty(miss);
        assert(0 * g - 0 * w == 0) by (nonlinear_arith);
    }
}

/// Only the grid counts: what a mask holds past it does not change the score.
pub proof fn law_the_score_looks_at_the_grid(
    mask: Seq<bool>,
    other: Seq<bool>,
    words: Seq<Word>,
    grid_len: nat,
)
    requires
        forall|i: int| 0 <= i < grid_len ==> #[trigger] mask[i] == other[i],
    ensures
        score_of(mask, words, grid_len) == score_of(other, words, grid_len),
{
    let spoken = spoken_mask(words, grid_len);
    assert(both(spoken, mask, true) =~= both(spoken, other, true));
    assert(both(spoken, mask, false) =~= both(spoken, other, false));
}

// ---------------------------------------------------------------------------
// Taking up a proposal
// ---------------------------------------------------------------------------
/// The threshold that a decision proposes to try. Only the speech threshold is
/// adjustable, and only while the score can tell masks apart.
pub open spec fn proposed_threshold(d: Decision, informative: bool, chosen: int) -> Option<int> {
    if informative && !d.ok && d.parameter@ == "threshold"@ && d.direction@ != "none"@ {
        if d.direction@ == "increase"@ {
            Some(chosen * 8 / 5)
        } else {
            Some(chosen * 5 / 8)
        }
    } else {
        None
    }
}

/// The threshold to try next, if the decision asks for one.
pub fn proposal(d: &Decision, informative: bool, chosen: i64) -> (t: Option<i64>)
    requires
        0 <= chosen <= TIME_MAX,
    ensures
        match t {
            Some(x) => proposed_threshold(*d, informative, chosen as int) == Some(x as int),
            None => proposed_threshold(*d, informative, chosen as int) is None,
        },
{
    if informative && !d.ok && same(d.parameter.as_str(), "threshold") && !same(
        d.direction.as_str(),
        "none",
    ) {
        if same(d.direction.as_str(), "increase") {
            Some(chosen * 8 / 5)
        } else {
            Some(chosen * 5 / 8)
        }
    } else {
        None
    }
}

/// With no usable model nothing is changed.
pub proof fn law_no_model_no_change(d: Decision, informative: bool, chosen: int)
    requires
        d.ok,
    ensures
        proposed_threshold(d, informative, chosen) is None,
{
}

/// A proposal that names anything but the speech threshold is discarded.
pub proof fn law_guards_are_out_of_reach(d: Decision, informative: bool, chosen: int)
    requires
        d.parameter@ != "threshold"@,
    ensures
        proposed_threshold(d, informative, chosen) is None,
{
}

/// The other score is strictly higher.
pub open spec fn beaten(s: Score, other: Score) -> bool {
    other.num() * s.den() > s.num() * other.den()
}

/// Of a mask and one to try instead of it, the one with the higher score; the
/// mask itself where they score the same.
pub open spec fn kept_mask(
    mask: Seq<bool>,
    alt: Seq<bool>,
    words: Seq<Word>,
    grid_len: nat,
) -> Seq<bool> {
    if beaten(score_of(mask, words, grid_len), score_of(alt, words, grid_len)) {
        alt
    } else {
        mask
    }
}

/// The speech mask after the decision was taken up.
pub open spec fn monitored(
    probs: Seq<i64>,
    mask: Seq<bool>,
    words: Seq<Word>,
    grid_len: nat,
    chosen: int,
    d: Decision,
) -> Seq<bool> {
    let informative = score_of(mask, words, grid_len).num() > 0;
    match proposed_threshold(d, informative, chosen) {
        Some(t) => kept_mask(
            mask,
            speech_mask_of(probs, t as i64, exit_for(t) as i64, grid_len),
            words,
            grid_len,
        ),
        None => mask,
    }
}

/// How the speech step was monitored.
#[derive(Debug)]
pub struct Monitored {
    /// The speech mask to go on with.
    pub mask: Vec<bool>,
    /// The score of the mask that was there before.
    pub score: Score,
    /// The threshold that was tried and the score it got.
    pub tried: Option<(i64, Score)>,
}

/// Takes up what the model proposes for the speech step: the step is run again
/// at the threshold proposed, and the score decides which mask survives.
pub fn monitor_speech(
    probs: &Vec<i64>,
    mask: Vec<bool>,
    words: &Vec<Word>,
    grid_len: usize,
    chosen: i64,
    d: &Decision,
) -> (r: Monitored)
    requires
        mask@.len() == grid_len,
        0 <= chosen <= TIME_MAX,
    ensures
        r.mask@ == monitored(probs@, mask@, words@, grid_len as nat, chosen as int, *d),
        r.score == score_of(mask@, words@, grid_len as nat),
        match proposed_threshold(*d, r.score.num() > 0, chosen as int) {
            Some(t) => r.tried == Some(
                (
                    t as i64,
                    score_of(
                        speech_mask_of(
                            probs@,
                            t as i64,
                            exit_for(t) as i64,
                            grid_len as nat,
                        ),
                        words@,
                        grid_len as nat,
                    ),
                ),
            ),
            None => r.tried is None,
        },
{
    let score = speech_score(&mask, words, grid_len);
    match proposal(d, score.informative(), chosen) {
        None => Monitored { mask, score, tried: None },
        Some(t) => {
            let alt = speech_mask(probs, t, exit_threshold(t), grid_len);
            let alt_score = speech_score(&alt, words, grid_len);
            let mask = if alt_score.better_than(&score) {
                alt
            } else {
                mask
            };
            Monitored { mask, score, tried: Some((t, alt_score)) }
        },
    }
}

/// The measurement decides: whatever the model proposes, the speech mask never
/// comes out with a lower score than it went in with.
pub proof fn law_the_score_never_falls(
    probs: Seq<i64>,
    mask: Seq<bool>,
    words: Seq<Word>,
    grid_len: nat,
    chosen: int,
    d: Decision,
)
    ensures
        ({
            let before = score_of(mask, words, grid_len);
            let after = score_of(
                monitored(probs, mask, words, grid_len, chosen, d),
                words,
                grid_len,
            );
            after.num() * before.den() >= before.num() * after.den()
        }),
{
}

/// The diagnostic of the speech step.
pub fn speech_diagnostic(speech_pct: i64, score: i64, longest_us: i64) -> (r: String)
    ensures
        r@ == "speech "@ + fixed(speech_pct as int, 1) + "%\nscore "@ + fixed(score as int, 3)
            + "\nlongest silence "@ + fixed(longest_us as int, 2) + "s"@,
{
    let mut r = String::new();
    r.append("speech ");
    r.append(show_fixed(speech_pct, 1).as_str());
    r.append("%\nscore ");
    r.append(show_fixed(score, 3).as_str());
    r.append("\nlongest silence ");
    r.append(show_fixed(longest_us, 2).as_str());
    r.append("s");
    assert(r@ =~= "speech "@ + fixed(speech_pct as int, 1) + "%\nscore "@ + fixed(score as int, 3)
        + "\nlongest silence "@ + fixed(longest_us as int, 2) + "s"@);
    r
}

/// The parameters of the speech step.
pub fn speech_parameters(threshold: i64) -> (r: String)
    ensures
        r@ == "{\"threshold\": "@ + fixed(threshold as int, 2) + "}"@,
{
    let mut r = String::new();
    r.append("{\"threshold\": ");
    r.append(show_fixed(threshold, 2).as_str());
    r.append("}");
    assert(r@ =~= "{\"threshold\": "@ + fixed(threshold as int, 2) + "}"@);
    r
}

// ---------------------------------------------------------------------------
// Laws
// ---------------------------------------------------------------------------
/// A word covers a slice of 20 ms that it has begun by the end of, and that
/// ends no later than it does.
pub proof fn law_a_word_covers_the_slices_it_fills(w: Word, i: int)
    requires
        0 <= i,
        0 <= w.start,
        0 <= w.end,
    ensures
        covers(w, i) <==> w.start < 20_000 * (i + 1) <= w.end,
{
}

/// The score is the share of slices with words that are marked less the share
/// of slices without words that are.
pub proof fn law_the_score_is_coverage_less_false_alarms(s: Score)
    requires
        s.wf(),
        s.word_n > 0,
        s.gap_n > 0,
    ensures
        s.den() > 0,
        s.num() * (s.word_n * s.gap_n) == s.den() * (s.word_hit * s.gap_n - s.gap_hit * s.word_n),
{
    s.lemma_within_one();
    let (w, g) = (s.word_n as int, s.gap_n as int);
    let n = s.word_hit * s.gap_n - s.gap_hit * s.word_n;
    assert(s.num() == n && s.den() == w * g);
    assert(n * (w * g) == (w * g) * n) by (nonlinear_arith);
}

proof fn lemma_one_more(a: Seq<bool>, b: Seq<bool>, i: int)
    requires
        a.len() == b.len(),
        0 <= i < a.len(),
        !a[i],
        b == a.update(i, true),
    ensures
        count_set(b) == count_set(a) + 1,
    decreases a.len(),
{
    let (fa, fb) = (a.drop_last(), b.drop_last());
    if i == a.len() - 1 {
        assert(fb =~= fa);
    } else {
        assert(fb =~= fa.update(i, true));
        lemma_one_more(fa, fb, i);
    }
}

/// Marking one more slice that has a word raises the score, and marking one
/// more that has none lowers it.
pub proof fn law_marking_words_raises_the_score(
    mask: Seq<bool>,
    words: Seq<Word>,
    grid_len: nat,
    i: int,
)
    requires
        grid_len <= usize::MAX,
        mask.len() == grid_len,
        0 <= i < grid_len,
        !mask[i],
    ensures
        ({
            let (s, t) = (
                score_of(mask, words, grid_len),
                score_of(mask.update(i, true), words, grid_len),
            );
            &&& s.den() == t.den()
            &&& is_spoken(words, i) ==> t.num() > s.num()
            &&& !is_spoken(words, i) ==> t.num() < s.num()
        }),
{
    let more = mask.update(i, true);
    let sp = spoken_mask(words, grid_len);
    lemma_score_counts(mask, words, grid_len);
    lemma_score_counts(more, words, grid_len);
    let (s, t) = (score_of(mask, words, grid_len), score_of(more, words, grid_len));
    let v = sp[i];
    let (a, b) = (both(sp, mask, v), both(sp, more, v));
    let (c, d) = (both(sp, mask, !v), both(sp, more, !v));
    assert(b =~= a.update(i, true));
    assert(c =~= d);
    lemma_one_more(a, b, i);
    let (w, g) = (nonzero(s.word_n as int), nonzero(s.gap_n as int));
    if v {
        assert((s.word_hit + 1) * g > s.word_hit * g) by (nonlinear_arith)
            requires
                g > 0,
        ;
    } else {
        assert((s.gap_hit + 1) * w > s.gap_hit * w) by (nonlinear_arith)
            requires
                w > 0,
        ;
    }
}

/// A threshold is nudged by a factor of 1.6, up where the model says to
/// increase it and down otherwise, rounded down. It is nudged exactly when the
/// score can tell masks apart and the model objects to the threshold and says
/// which way.
pub proof fn law_a_threshold_is_nudged_by_eight_fifths(d: Decision, informative: bool, chosen: int)
    requires
        0 <= chosen,
    ensures
        proposed_threshold(d, informative, chosen) is Some <==> informative && !d.ok
            && d.parameter@ == "threshold"@ && d.direction@ != "none"@,
        proposed_threshold(d, informative, chosen) matches Some(t) ==> {
            &&& d.direction@ == "increase"@ ==> 5 * t <= 8 * chosen < 5 * t + 5
            &&& d.direction@ != "increase"@ ==> 8 * t <= 5 * chosen < 8 * t + 8
        },
{
}

/// What is kept is one of the two, the one to try only where it scores strictly
/// higher.
pub proof fn law_a_tie_keeps_what_was_there(
    mask: Seq<bool>,
    alt: Seq<bool>,
    words: Seq<Word>,
    grid_len: nat,
)
    ensures
        ({
            let (s, t) = (score_of(mask, words, grid_len), score_of(alt, words, grid_len));
            let kept = kept_mask(mask, alt, words, grid_len);
            &&& t.num() * s.den() > s.num() * t.den() ==> kept == alt
            &&& t.num() * s.den() <= s.num() * t.den() ==> kept == mask
        }),
{
}

} // verus!
