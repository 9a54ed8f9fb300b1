//! The content region: the part of the frame that actually changes.
use vstd::prelude::*;

use crate::constants::{
    ACTIVITY_MIN, ACTIVITY_RATIO, BUSY_DIFF, GRID_H, GRID_W, MAX_BUSY, MIN_BLOB,
};
use crate::num::{
    decimal, law_decimals_read_back, low_digits, push_decimal, push_low_digits_trimmed, value,
};
use crate::order::{before, is_order, stable_order};
use crate::plan::scaled;
use crate::text::drop_back;

verus! {

/// Cells of a downscaled frame.
pub const CELLS: usize = 14_400;

// ---------------------------------------------------------------------------
// Frames
// ---------------------------------------------------------------------------
/// Raw grey video cut into frames; a trailing part of a frame is dropped.
pub open spec fn frames_of(bytes: Seq<u8>) -> Seq<Seq<u8>> {
    Seq::new(
        bytes.len() / CELLS as nat,
        |k: int| bytes.subrange(k * CELLS, k * CELLS + CELLS),
    )
}

pub open spec fn frame_views(frames: Seq<Vec<u8>>) -> Seq<Seq<u8>> {
    Seq::new(frames.len(), |k: int| frames[k]@)
}

/// Every frame has all its cells.
pub open spec fn full_frames(frames: Seq<Vec<u8>>) -> bool {
    forall|k: int| 0 <= k < frames.len() ==> (#[trigger] frames[k])@.len() >= CELLS
}

/// Cuts raw grey video into frames.
pub fn split_frames(bytes: &Vec<u8>) -> (frames: Vec<Vec<u8>>)
    ensures
        frame_views(frames@) == frames_of(bytes@),
        full_frames(frames@),
{
    let mut frames: Vec<Vec<u8>> = Vec::new();
    let n: usize = bytes.len();
    let mut at: usize = 0;
    while n - at >= CELLS
        invariant
            at <= n,
            n == bytes@.len(),
            at == frames@.len() * CELLS,
            full_frames(frames@),
            forall|k: int|
                0 <= k < frames@.len() ==> (#[trigger] frames@[k])@ == bytes@.subrange(
                    k * CELLS,
                    k * CELLS + CELLS,
                ),
        decreases n - at,
    {
        let mut frame: Vec<u8> = Vec::new();
        let mut c: usize = 0;
        while c < CELLS
            invariant
                c <= CELLS,
                at + CELLS <= n,
                n == bytes@.len(),
                frame@ == bytes@.subrange(at as int, at + c),
            decreases CELLS - c,
        {
            frame.push(bytes[at + c]);
            c += 1;
            assert(frame@ =~= bytes@.subrange(at as int, at + c));
        }
        frames.push(frame);
        at = at + CELLS;
    }
    assert(frame_views(frames@) =~= frames_of(bytes@));
    frames
}

pub open spec fn gap(a: int, b: int) -> int {
    if a < b {
        b - a
    } else {
        a - b
    }
}

fn byte_gap(a: u8, b: u8) -> (d: u64)
    ensures
        d == gap(a as int, b as int),
        d <= 255,
{
    if a < b {
        (b - a) as u64
    } else {
        (a - b) as u64
    }
}

/// How much cell `c` changes from frame to frame, over the first `n` pairs.
pub open spec fn total_change(frames: Seq<Seq<u8>>, c: int, n: int) -> int
    decreases n,
{
    if n <= 0 {
        0
    } else {
        total_change(frames, c, n - 1) + gap(frames[n - 1][c] as int, frames[n][c] as int)
    }
}

/// How much each cell changes, summed over neighbouring frames.
#[derive(Debug)]
pub struct Activity {
    pub sums: Vec<u64>,
    /// How many pairs of neighbouring frames there are.
    pub pairs: usize,
}

/// Measures how much each cell changes.
pub fn cell_activity(frames: &Vec<Vec<u8>>) -> (a: Activity)
    requires
        frames@.len() >= 1,
        frames@.len() <= 0x1_0000_0000,
        full_frames(frames@),
    ensures
        a.pairs == frames@.len() - 1,
        a.sums@.len() == CELLS,
        forall|c: int|
            0 <= c < CELLS ==> #[trigger] a.sums@[c] == total_change(
                frame_views(frames@),
                c,
                frames@.len() - 1,
            ),
{
    let ghost fv = frame_views(frames@);
    let n: usize = frames.len();
    let mut sums: Vec<u64> = Vec::new();
    let mut c: usize = 0;
    while c < CELLS
        invariant
            c <= CELLS,
            n == frames@.len(),
            1 <= n <= 0x1_0000_0000,
            full_frames(frames@),
            fv == frame_views(frames@),
            sums@.len() == c,
            forall|q: int|
                0 <= q < c ==> #[trigger] sums@[q] == total_change(fv, q, n - 1),
        decreases CELLS - c,
    {
        let mut sum: u64 = 0;
        let mut k: usize = 1;
        while k < n
            invariant
                c < CELLS,
                1 <= k <= n,
                n == frames@.len(),
                n <= 0x1_0000_0000,
                full_frames(frames@),
                fv == frame_views(frames@),
                sum <= 255 * (k - 1),
                sum == total_change(fv, c as int, k - 1),
            decreases n - k,
        {
            assert(frames@[k - 1]@.len() >= CELLS && frames@[k as int]@.len() >= CELLS);
            assert(fv[k - 1] == frames@[k - 1]@ && fv[k as int] == frames@[k as int]@);
            sum = sum + byte_gap(frames[k - 1][c], frames[k][c]);
            k += 1;
        }
        sums.push(sum);
        c += 1;
    }
    Activity { sums, pairs: n - 1 }
}

/// The largest of the values, zero for none.
pub open spec fn peak(sums: Seq<u64>) -> int
    decreases sums.len(),
{
    if sums.len() == 0 {
        0
    } else {
        let p = peak(sums.drop_last());
        if sums.last() > p {
            sums.last() as int
        } else {
            p
        }
    }
}

/// The peak activity is too low for a content region: under two levels a
/// frame.
pub open spec fn too_still(sums: Seq<u64>, pairs: int) -> bool {
    pairs == 0 || 1_000_000 * peak(sums) < ACTIVITY_MIN * pairs
}

/// The cells whose activity is over eight hundredths of the peak.
pub open spec fn content_cells(sums: Seq<u64>) -> Seq<bool> {
    Seq::new(sums.len(), |i: int| 1_000_000 * sums[i] > ACTIVITY_RATIO * peak(sums))
}

/// The cells that count as content, with the threshold in millionths of a
/// level per frame; `None` where nothing changes enough.
pub fn content_mask(a: &Activity) -> (r: Option<(Vec<bool>, u128)>)
    ensures
        match r {
            None => too_still(a.sums@, a.pairs as int),
            Some(m) => {
                &&& !too_still(a.sums@, a.pairs as int)
                &&& m.0@ == content_cells(a.sums@)
                &&& m.1 == ACTIVITY_RATIO * peak(a.sums@) / a.pairs as int
            },
        },
{
    let mut max: u64 = 0;
    let mut i: usize = 0;
    while i < a.sums.len()
        invariant
            i <= a.sums@.len(),
            max == peak(a.sums@.take(i as int)),
        decreases a.sums@.len() - i,
    {
        assert(a.sums@.take(i + 1).drop_last() =~= a.sums@.take(i as int));
        if a.sums[i] > max {
            max = a.sums[i];
        }
        i += 1;
    }
    assert(a.sums@.take(i as int) =~= a.sums@);
    if a.pairs == 0 || ACTIVITY_MIN as u128 * a.pairs as u128 > 1_000_000 * max as u128 {
        return None;
    }
    let mut mask: Vec<bool> = Vec::new();
    let mut k: usize = 0;
    while k < a.sums.len()
        invariant
            k <= a.sums@.len(),
            max == peak(a.sums@),
            mask@ == content_cells(a.sums@).take(k as int),
        decreases a.sums@.len() - k,
    {
        let over = 1_000_000 * a.sums[k] as u128 > ACTIVITY_RATIO as u128 * max as u128;
        mask.push(over);
        k += 1;
        assert(mask@ =~= content_cells(a.sums@).take(k as int));
    }
    assert(content_cells(a.sums@).take(k as int) =~= content_cells(a.sums@));
    Some((mask, ACTIVITY_RATIO as u128 * max as u128 / a.pairs as u128))
}

// ---------------------------------------------------------------------------
// Blobs
// ---------------------------------------------------------------------------
/// Cells of a grid `w` wide that share an edge.
pub open spec fn adjacent(w: int, c: int, d: int) -> bool {
    ||| c / w == d / w && (d == c + 1 || c == d + 1)
    ||| d == c + w
    ||| c == d + w
}

/// A set of lit cells that no lit cell outside it touches.
pub open spec fn is_closed(mask: Seq<bool>, w: int, s: Set<int>) -> bool {
    forall|c: int, d: int|
        s.contains(c) && 0 <= d < mask.len() && mask[d] && #[trigger] adjacent(w, c, d)
            ==> s.contains(d)
}

/// Cell `b` can be reached from cell `a` over lit cells: it is in every closed
/// set that holds `a`.
pub open spec fn joined_to(mask: Seq<bool>, w: int, a: int, b: int) -> bool {
    forall|s: Set<int>| s.contains(a) && #[trigger] is_closed(mask, w, s) ==> s.contains(b)
}

/// A blob is everything that can be reached from its first cell, each cell
/// once.
pub open spec fn is_blob(mask: Seq<bool>, w: int, blob: Seq<usize>) -> bool {
    &&& blob.len() > 0
    &&& blob.no_duplicates()
    &&& mask[blob[0] as int]
    &&& forall|i: int|
        0 <= i < blob.len() ==> (#[trigger] blob[i]) < mask.len() && mask[blob[i] as int]
            && joined_to(mask, w, blob[0] as int, blob[i] as int) && blob[0] <= blob[i]
    &&& forall|d: usize|
        d < mask.len() && mask[d as int] && joined_to(mask, w, blob[0] as int, d as int)
            ==> #[trigger] blob.contains(d)
}

pub open spec fn blob_views(blobs: Seq<Vec<usize>>) -> Seq<Seq<usize>> {
    Seq::new(blobs.len(), |k: int| blobs[k]@)
}

/// The first blob comes before the second: it is larger, or as large and
/// nearer the top left.
pub open spec fn blob_before(a: Seq<usize>, b: Seq<usize>) -> bool {
    a.len() > b.len() || (a.len() == b.len() && a[0] < b[0])
}

/// All the blobs of a mask, largest first; every lit cell is in one of them,
/// and blobs share no cell.
pub open spec fn are_blobs(mask: Seq<bool>, w: int, blobs: Seq<Seq<usize>>) -> bool {
    &&& forall|k: int| 0 <= k < blobs.len() ==> is_blob(mask, w, #[trigger] blobs[k])
    &&& forall|c: usize|
        c < mask.len() && mask[c as int] ==> exists|k: int|
            0 <= k < blobs.len() && (#[trigger] blobs[k]).contains(c)
    &&& forall|k: int, l: int|
        0 <= k < l < blobs.len() ==> blob_before(#[trigger] blobs[k], #[trigger] blobs[l])
    &&& forall|k: int, l: int, c: usize|
        0 <= k < l < blobs.len() && #[trigger] blobs[k].contains(c)
            ==> !#[trigger] blobs[l].contains(c)
}

/// Marks a lit cell that was not seen yet, and puts it on the stack.
pub fn push_if(stack: &mut Vec<usize>, seen: &mut Vec<bool>, mask: &Vec<bool>, c: usize)
    requires
        c < mask@.len(),
        old(seen)@.len() == mask@.len(),
    ensures
        final(seen)@ == (if mask@[c as int] {
            old(seen)@.update(c as int, true)
        } else {
            old(seen)@
        }),
        final(stack)@ == (if mask@[c as int] && !old(seen)@[c as int] {
            old(stack)@.push(c)
        } else {
            old(stack)@
        }),
{
    if mask[c] && !seen[c] {
        seen.set(c, true);
        stack.push(c);
    } else {
        assert(seen@ =~= (if mask@[c as int] {
            old(seen)@.update(c as int, true)
        } else {
            old(seen)@
        }));
    }
}

/// The cells marked in `seen`.
pub open spec fn seen_set(seen: Seq<bool>) -> Set<int> {
    Set::new(|c: int| 0 <= c < seen.len() && seen[c])
}

/// How many cells are not seen yet.
pub open spec fn unseen(seen: Seq<bool>) -> nat
    decreases seen.len(),
{
    if seen.len() == 0 {
        0
    } else {
        unseen(seen.drop_last()) + (if seen.last() {
            0nat
        } else {
            1
        })
    }
}

proof fn lemma_unseen_update(seen: Seq<bool>, c: int)
    requires
        0 <= c < seen.len(),
        !seen[c],
    ensures
        unseen(seen.update(c, true)) + 1 == unseen(seen),
    decreases seen.len(),
{
    let up = seen.update(c, true);
    if c == seen.len() - 1 {
        assert(up.drop_last() =~= seen.drop_last());
    } else {
        lemma_unseen_update(seen.drop_last(), c);
        assert(up.drop_last() =~= seen.drop_last().update(c, true));
    }
}

proof fn lemma_unseen_bound(seen: Seq<bool>)
    ensures
        unseen(seen) <= seen.len(),
    decreases seen.len(),
{
    if seen.len() > 0 {
        lemma_unseen_bound(seen.drop_last());
    }
}

/// The four neighbours of a cell, by row and column.
proof fn lemma_neighbours(w: int, h: int, c: int, d: int)
    requires
        w > 0,
        0 <= c < w * h,
        0 <= d < w * h,
        adjacent(w, c, d),
    ensures
        (d == c - 1 && c % w > 0) || (d == c + 1 && c % w + 1 < w) || (d == c - w && c / w > 0) || (
        d == c + w && c / w + 1 < h),
{
    vstd::arithmetic::div_mod::lemma_fundamental_div_mod(c, w);
    vstd::arithmetic::div_mod::lemma_fundamental_div_mod(d, w);
    vstd::arithmetic::div_mod::lemma_mod_bound(c, w);
    vstd::arithmetic::div_mod::lemma_mod_bound(d, w);
    let (q, r) = (c / w, c % w);
    if d == c + w {
        assert(q + 1 < h) by (nonlinear_arith)
            requires
                c == w * q + r,
                0 <= r < w,
                c + w < w * h,
                w > 0,
        ;
    } else if c == d + w {
        assert(q > 0) by (nonlinear_arith)
            requires
                c == w * q + r,
                0 <= r < w,
                c >= w,
                w > 0,
        ;
    }
}

/// A step to the side stays on the row.
proof fn lemma_side_step(w: int, c: int)
    requires
        w > 0,
        0 <= c,
    ensures
        c % w > 0 ==> (c - 1) / w == c / w && c >= 1,
        c % w + 1 < w ==> (c + 1) / w == c / w,
        c / w > 0 ==> c >= w,
{
    vstd::arithmetic::div_mod::lemma_fundamental_div_mod(c, w);
    vstd::arithmetic::div_mod::lemma_mod_bound(c, w);
    let (q, r) = (c / w, c % w);
    assert(w * q == q * w) by (nonlinear_arith);
    if r > 0 {
        vstd::arithmetic::div_mod::lemma_fundamental_div_mod_converse(c - 1, w, q, r - 1);
    }
    if r + 1 < w {
        vstd::arithmetic::div_mod::lemma_fundamental_div_mod_converse(c + 1, w, q, r + 1);
    }
    if q > 0 {
        assert(c >= w) by (nonlinear_arith)
            requires
                c == w * q + r,
                q > 0,
                r >= 0,
                w > 0,
        ;
    }
    if r > 0 {
        assert(c >= 1) by (nonlinear_arith)
            requires
                c == w * q + r,
                r > 0,
                q >= 0,
                w > 0,
        ;
    }
}

/// Whatever touches a reachable lit cell is reachable.
proof fn lemma_joined_step(mask: Seq<bool>, w: int, a: int, c: int, d: int)
    requires
        joined_to(mask, w, a, c),
        adjacent(w, c, d),
        0 <= d < mask.len(),
        mask[d],
    ensures
        joined_to(mask, w, a, d),
{
    assert forall|s: Set<int>| s.contains(a) && #[trigger] is_closed(mask, w, s) implies s.contains(
        d,
    ) by {
        assert(s.contains(c));
        assert(adjacent(w, c, d));
    }
}

/// Nothing that is reachable from an unseen lit cell is in a closed set of
/// seen cells.
proof fn lemma_joined_unseen(mask: Seq<bool>, w: int, seen: Seq<bool>, a: int, b: int)
    requires
        seen.len() == mask.len(),
        is_closed(mask, w, seen_set(seen)),
        0 <= a < mask.len(),
        mask[a],
        !seen[a],
        joined_to(mask, w, a, b),
    ensures
        0 <= b < mask.len(),
        mask[b],
        !seen[b],
{
    let rest = Set::new(|c: int| 0 <= c < mask.len() && mask[c] && !seen[c]);
    assert(is_closed(mask, w, rest)) by {
        assert forall|c: int, d: int|
            rest.contains(c) && 0 <= d < mask.len() && mask[d] && #[trigger] adjacent(
                w,
                c,
                d,
            ) implies rest.contains(d) by {
            if seen[d] {
                assert(seen_set(seen).contains(d));
                assert(adjacent(w, d, c));
                assert(seen_set(seen).contains(c));
            }
        }
    }
    assert(rest.contains(a));
    assert(rest.contains(b));
}

/// What holds while a blob is being collected: `done` are the cells already in
/// it, the stack holds cells that are seen but not yet done.
pub open spec fn collecting(
    mask: Seq<bool>,
    w: int,
    start: int,
    seen0: Seq<bool>,
    seen: Seq<bool>,
    blob: Seq<usize>,
    stack: Seq<usize>,
) -> bool {
    &&& seen.len() == mask.len()
    &&& forall|c: int| 0 <= c < mask.len() && #[trigger] seen0[c] ==> seen[c]
    &&& forall|i: int|
        0 <= i < blob.len() ==> (#[trigger] blob[i]) < mask.len() && mask[blob[i] as int]
            && seen[blob[i] as int] && !seen0[blob[i] as int] && joined_to(
            mask,
            w,
            start,
            blob[i] as int,
        )
    &&& forall|i: int|
        0 <= i < stack.len() ==> (#[trigger] stack[i]) < mask.len() && mask[stack[i] as int]
            && seen[stack[i] as int] && !seen0[stack[i] as int] && joined_to(
            mask,
            w,
            start,
            stack[i] as int,
        )
    &&& blob.no_duplicates()
    &&& stack.no_duplicates()
    &&& forall|i: int, j: int|
        0 <= i < blob.len() && 0 <= j < stack.len() ==> #[trigger] blob[i] != #[trigger] stack[j]
    &&& forall|c: usize|
        c < mask.len() && #[trigger] seen[c as int] && !seen0[c as int] ==> blob.contains(c)
            || stack.contains(c)
}

/// Every lit neighbour of the first `n` cells of the blob is seen.
pub open spec fn neighbours_seen(
    mask: Seq<bool>,
    w: int,
    seen: Seq<bool>,
    blob: Seq<usize>,
    n: int,
) -> bool {
    forall|i: int, d: int|
        0 <= i < n && 0 <= d < mask.len() && mask[d] && #[trigger] adjacent(w, blob[i] as int, d)
            ==> seen[d]
}

/// One more look at a neighbour keeps everything that holds.
proof fn lemma_push(
    mask: Seq<bool>,
    w: int,
    start: int,
    seen0: Seq<bool>,
    seen: Seq<bool>,
    blob: Seq<usize>,
    stack: Seq<usize>,
    d: usize,
    seen2: Seq<bool>,
    stack2: Seq<usize>,
)
    requires
        seen0.len() == mask.len(),
        collecting(mask, w, start, seen0, seen, blob, stack),
        d < mask.len(),
        mask[d as int] ==> joined_to(mask, w, start, d as int),
        seen2 == (if mask[d as int] {
            seen.update(d as int, true)
        } else {
            seen
        }),
        stack2 == (if mask[d as int] && !seen[d as int] {
            stack.push(d)
        } else {
            stack
        }),
    ensures
        collecting(mask, w, start, seen0, seen2, blob, stack2),
        forall|c: int| 0 <= c < mask.len() && #[trigger] seen[c] ==> seen2[c],
        mask[d as int] ==> seen2[d as int],
        unseen(seen2) + stack2.len() == unseen(seen) + stack.len(),
{
    if mask[d as int] && !seen[d as int] {
        lemma_unseen_update(seen, d as int);
        assert forall|c: usize| c < mask.len() && #[trigger] seen2[c as int]
            && !seen0[c as int] implies blob.contains(c) || stack2.contains(c) by {
            if c == d {
                assert(stack2[stack.len() as int] == d);
            } else if stack.contains(c) {
                let i = choose|i: int| 0 <= i < stack.len() && stack[i] == c;
                assert(stack2[i] == c);
            } else {
                assert(seen[c as int]);
            }
        }
        assert forall|i: int, j: int| 0 <= i < j < stack2.len() implies stack2[i] != stack2[j] by {
            if j == stack.len() {
                assert(seen[stack[i] as int]);
            }
        }
        assert(stack2.no_duplicates());
    } else {
        assert(seen2 =~= seen);
    }
}

/// Collects the blob around an unseen lit cell, and marks it seen.
fn flood(mask: &Vec<bool>, w: usize, h: usize, seen: &mut Vec<bool>, start: usize) -> (blob: Vec<
    usize,
>)
    requires
        w > 0,
        mask@.len() == w * h,
        old(seen)@.len() == mask@.len(),
        start < mask@.len(),
        mask@[start as int],
        !old(seen)@[start as int],
        is_closed(mask@, w as int, seen_set(old(seen)@)),
        forall|c: int| 0 <= c < start && mask@[c] ==> #[trigger] old(seen)@[c],
    ensures
        final(seen)@.len() == mask@.len(),
        is_blob(mask@, w as int, blob@),
        blob@[0] == start,
        blob@.len() <= mask@.len(),
        is_closed(mask@, w as int, seen_set(final(seen)@)),
        forall|c: usize|
            c < mask@.len() ==> (#[trigger] final(seen)@[c as int] <==> old(seen)@[c as int]
                || blob@.contains(c)),
        forall|i: int| 0 <= i < blob@.len() ==> !old(seen)@[#[trigger] blob@[i] as int],
{
    let ghost m = mask@;
    let ghost wi = w as int;
    let ghost hi = h as int;
    let ghost s0 = seen@;
    let total: usize = mask.len();
    let mut blob: Vec<usize> = Vec::new();
    let mut stack: Vec<usize> = Vec::new();
    stack.push(start);
    proof {
        lemma_unseen_update(s0, start as int);
    }
    seen.set(start, true);
    proof {
        assert(stack@ =~= seq![start]);
        assert forall|c: usize| c < m.len() && #[trigger] seen@[c as int]
            && !s0[c as int] implies blob@.contains(c) || stack@.contains(c) by {
            assert(c == start);
            assert(stack@[0] == start);
        }
    }
    while stack.len() > 0
        invariant
            m == mask@,
            wi == w,
            hi == h,
            w > 0,
            m.len() == w * h,
            total == m.len(),
            s0.len() == m.len(),
            s0 == old(seen)@,
            start < m.len(),
            !s0[start as int],
            m[start as int],
            is_closed(m, wi, seen_set(s0)),
            collecting(m, wi, start as int, s0, seen@, blob@, stack@),
            neighbours_seen(m, wi, seen@, blob@, blob@.len() as int),
            blob@.len() == 0 ==> stack@ == seq![start],
            blob@.len() > 0 ==> blob@[0] == start,
            unseen(seen@) + stack@.len() + blob@.len() == unseen(s0),
        decreases unseen(seen@) + stack@.len(),
    {
        let ghost st = stack@;
        let ghost bl = blob@;
        let n: usize = stack.len();
        let c: usize = stack[n - 1];
        stack.truncate(n - 1);
        blob.push(c);
        assert(stack@ =~= st.drop_last());
        assert(c == st[n - 1]);
        proof {
            assert(collecting(m, wi, start as int, s0, seen@, blob@, stack@)) by {
                assert forall|i: int, j: int| 0 <= i < j < blob@.len() implies blob@[i]
                    != blob@[j] by {
                    if j == bl.len() {
                        assert(bl[i] != st[n - 1]);
                    } else {
                        assert(bl[i] != bl[j]);
                    }
                }
                assert forall|i: int, j: int|
                    0 <= i < blob@.len() && 0 <= j < stack@.len() implies #[trigger] blob@[i]
                    != #[trigger] stack@[j] by {
                    assert(stack@[j] == st[j]);
                    if i == bl.len() {
                        assert(st[j] != st[n - 1]);
                    } else {
                        assert(bl[i] != st[j]);
                    }
                }
                assert forall|q: usize| q < m.len() && #[trigger] seen@[q as int]
                    && !s0[q as int] implies blob@.contains(q) || stack@.contains(q) by {
                    if bl.contains(q) {
                        let i = choose|i: int| 0 <= i < bl.len() && bl[i] == q;
                        assert(blob@[i] == q);
                    } else {
                        let i = choose|i: int| 0 <= i < st.len() && st[i] == q;
                        if i == n - 1 {
                            assert(blob@[bl.len() as int] == q);
                        } else {
                            assert(stack@[i] == q);
                        }
                    }
                }
                assert forall|i: int, j: int| 0 <= i < j < stack@.len() implies stack@[i]
                    != stack@[j] by {
                    assert(st[i] != st[j]);
                }
            }
            lemma_side_step(wi, c as int);
        }
        let x: usize = c % w;
        let y: usize = c / w;
        let ghost mut seen1 = seen@;
        let ghost mut stack1 = stack@;
        if x > 0 {
            proof {
                if m[c - 1] {
                    lemma_joined_step(m, wi, start as int, c as int, c - 1);
                }
            }
            push_if(&mut stack, seen, mask, c - 1);
            proof {
                lemma_push(
                    m,
                    wi,
                    start as int,
                    s0,
                    seen1,
                    blob@,
                    stack1,
                    (c - 1) as usize,
                    seen@,
                    stack@,
                );
            }
        }
        let ghost seen2 = seen@;
        let ghost stack2 = stack@;
        if x + 1 < w {
            proof {
                lemma_right(wi, hi, c as int);
                if m[c + 1] {
                    lemma_joined_step(m, wi, start as int, c as int, c + 1);
                }
            }
            push_if(&mut stack, seen, mask, c + 1);
            proof {
                lemma_push(
                    m,
                    wi,
                    start as int,
                    s0,
                    seen2,
                    blob@,
                    stack2,
                    (c + 1) as usize,
                    seen@,
                    stack@,
                );
            }
        }
        let ghost seen3 = seen@;
        let ghost stack3 = stack@;
        if y > 0 {
            proof {
                if m[c - w] {
                    lemma_joined_step(m, wi, start as int, c as int, c - w);
                }
            }
            push_if(&mut stack, seen, mask, c - w);
            proof {
                lemma_push(
                    m,
                    wi,
                    start as int,
                    s0,
                    seen3,
                    blob@,
                    stack3,
                    (c - w) as usize,
                    seen@,
                    stack@,
                );
            }
        }
        let ghost seen4 = seen@;
        let ghost stack4 = stack@;
        if y + 1 < h {
            proof {
                lemma_below(wi, hi, c as int);
                if m[c + w] {
                    lemma_joined_step(m, wi, start as int, c as int, c + w);
                }
            }
            push_if(&mut stack, seen, mask, c + w);
            proof {
                lemma_push(
                    m,
                    wi,
                    start as int,
                    s0,
                    seen4,
                    blob@,
                    stack4,
                    (c + w) as usize,
                    seen@,
                    stack@,
                );
            }
        }
        proof {
            assert forall|i: int, d: int|
                0 <= i < blob@.len() && 0 <= d < m.len() && m[d] && #[trigger] adjacent(
                    wi,
                    blob@[i] as int,
                    d,
                ) implies seen@[d] by {
                if i < bl.len() {
                    assert(blob@[i] == bl[i]);
                    assert(adjacent(wi, bl[i] as int, d));
                    assert(seen1[d]);
                } else {
                    lemma_neighbours(wi, hi, c as int, d);
                }
            }
        }
    }
    proof {
        lemma_unseen_bound(s0);
        assert(blob@.len() > 0) by {
            if blob@.len() == 0 {
                assert(stack@.len() == 1);
            }
        }
        let bset = Set::new(|c: int| 0 <= c < m.len() && blob@.contains(c as usize));
        assert(is_closed(m, wi, bset)) by {
            assert forall|c: int, d: int|
                bset.contains(c) && 0 <= d < m.len() && m[d] && #[trigger] adjacent(
                    wi,
                    c,
                    d,
                ) implies bset.contains(d) by {
                let i = choose|i: int| 0 <= i < blob@.len() && blob@[i] == c as usize;
                assert(adjacent(wi, blob@[i] as int, d));
                assert(seen@[d]);
                lemma_joined_step(m, wi, start as int, c, d);
                lemma_joined_unseen(m, wi, s0, start as int, d);
                assert(seen@[(d as usize) as int]);
                assert(blob@.contains(d as usize));
            }
        }
        assert(bset.contains(start as int)) by {
            assert(blob@[0] == start);
        }
        assert forall|d: usize|
            d < m.len() && m[d as int] && joined_to(
                m,
                wi,
                start as int,
                d as int,
            ) implies #[trigger] blob@.contains(d) by {
            assert(bset.contains(d as int));
        }
        assert forall|c: usize| c < m.len() implies (#[trigger] seen@[c as int] <==> s0[c as int]
            || blob@.contains(c)) by {
            if blob@.contains(c) {
                let i = choose|i: int| 0 <= i < blob@.len() && blob@[i] == c;
                assert(seen@[blob@[i] as int]);
            }
            if s0[c as int] {
                assert(seen@[c as int]);
            }
        }
        assert forall|i: int| 0 <= i < blob@.len() implies (#[trigger] blob@[i]) < m.len()
            && m[blob@[i] as int] && joined_to(m, wi, blob@[0] as int, blob@[i] as int) && blob@[0]
            <= blob@[i] by {
            if blob@[i] < start {
                assert(s0[blob@[i] as int]);
            }
        }
        assert(is_blob(m, wi, blob@));
        assert(is_closed(m, wi, seen_set(seen@))) by {
            assert forall|c: int, d: int|
                seen_set(seen@).contains(c) && 0 <= d < m.len() && m[d] && #[trigger] adjacent(
                    wi,
                    c,
                    d,
                ) implies seen_set(seen@).contains(d) by {
                if s0[c] {
                    assert(seen_set(s0).contains(c));
                    assert(seen_set(s0).contains(d));
                    assert(s0[d]);
                    assert(seen@[d]);
                } else {
                    assert(seen@[(c as usize) as int]);
                    assert(blob@.contains(c as usize));
                    let i = choose|i: int| 0 <= i < blob@.len() && blob@[i] == c as usize;
                    assert(adjacent(wi, blob@[i] as int, d));
                }
            }
        }
    }
    blob
}

proof fn lemma_right(w: int, h: int, c: int)
    requires
        w > 0,
        0 <= c < w * h,
        c % w + 1 < w,
    ensures
        c + 1 < w * h,
{
    vstd::arithmetic::div_mod::lemma_fundamental_div_mod(c, w);
    let (q, r) = (c / w, c % w);
    vstd::arithmetic::div_mod::lemma_mod_bound(c, w);
    assert(c + 1 < w * h) by (nonlinear_arith)
        requires
            c == w * q + r,
            c < w * h,
            0 <= r,
            r + 1 < w,
            w > 0,
    ;
}

proof fn lemma_below(w: int, h: int, c: int)
    requires
        w > 0,
        0 <= c < w * h,
        c / w + 1 < h,
    ensures
        c + w < w * h,
{
    vstd::arithmetic::div_mod::lemma_fundamental_div_mod(c, w);
    vstd::arithmetic::div_mod::lemma_mod_bound(c, w);
    let (q, r) = (c / w, c % w);
    assert(c + w < w * h) by (nonlinear_arith)
        requires
            c == w * q + r,
            0 <= r < w,
            q + 2 <= h,
            w > 0,
    ;
}

/// The blobs found so far, in the order of their first cells; `seen` is what
/// they cover.
pub open spec fn found_blobs(
    mask: Seq<bool>,
    w: int,
    upto: int,
    seen: Seq<bool>,
    blobs: Seq<Seq<usize>>,
) -> bool {
    &&& seen.len() == mask.len()
    &&& is_closed(mask, w, seen_set(seen))
    &&& forall|k: int| 0 <= k < blobs.len() ==> is_blob(mask, w, #[trigger] blobs[k])
    &&& forall|k: int| 0 <= k < blobs.len() ==> (#[trigger] blobs[k])[0] < upto
    &&& forall|k: int, l: int|
        0 <= k < l < blobs.len() ==> (#[trigger] blobs[k])[0] < (#[trigger] blobs[l])[0]
    &&& forall|c: int| 0 <= c < upto && mask[c] ==> #[trigger] seen[c]
    &&& forall|c: usize|
        c < mask.len() && #[trigger] seen[c as int] ==> exists|k: int|
            0 <= k < blobs.len() && (#[trigger] blobs[k]).contains(c)
    &&& forall|k: int, i: int|
        0 <= k < blobs.len() && 0 <= i < blobs[k].len() ==> seen[#[trigger] blobs[k][i] as int]
    &&& forall|k: int, l: int, c: usize|
        0 <= k < l < blobs.len() && #[trigger] blobs[k].contains(c)
            ==> !#[trigger] blobs[l].contains(c)
}

/// Sort keys that put the largest blob first.
pub open spec fn sized_keys(keys: Seq<i64>, blobs: Seq<Seq<usize>>) -> bool {
    &&& keys.len() == blobs.len()
    &&& forall|k: int| 0 <= k < blobs.len() ==> #[trigger] keys[k] == -(blobs[k].len() as int)
}

/// The connected regions of a mask `w` wide and `h` high, largest first.
///
/// The order of the cells within a blob, after the first, is left open.
pub fn blobs(mask: &Vec<bool>, w: usize, h: usize) -> (out: Vec<Vec<usize>>)
    requires
        mask@.len() == w * h,
        mask@.len() <= i64::MAX,
    ensures
        are_blobs(mask@, w as int, blob_views(out@)),
{
    let ghost m = mask@;
    let ghost wi = w as int;
    let n: usize = mask.len();
    let mut seen: Vec<bool> = Vec::new();
    let mut i: usize = 0;
    while i < n
        invariant
            i <= n,
            seen@.len() == i,
            forall|c: int| 0 <= c < i ==> !(#[trigger] seen@[c]),
        decreases n - i,
    {
        seen.push(false);
        i += 1;
    }
    let mut found: Vec<Vec<usize>> = Vec::new();
    let mut keys: Vec<i64> = Vec::new();
    proof {
        assert(is_closed(m, wi, seen_set(seen@)));
        assert(found_blobs(m, wi, 0, seen@, blob_views(found@)));
    }
    let mut start: usize = 0;
    while start < n
        invariant
            start <= n,
            n == m.len(),
            n <= i64::MAX,
            m == mask@,
            wi == w,
            m.len() == w * h,
            found_blobs(m, wi, start as int, seen@, blob_views(found@)),
            sized_keys(keys@, blob_views(found@)),
        decreases n - start,
    {
        let ghost bv = blob_views(found@);
        let ghost s0 = seen@;
        if mask[start] && !seen[start] {
            assert(w > 0) by {
                if w == 0 {
                    assert(w * h == 0) by (nonlinear_arith)
                        requires
                            w == 0,
                    ;
                }
            }
            let blob = flood(mask, w, h, &mut seen, start);
            let ghost b = blob@;
            let key: i64 = -(blob.len() as i64);
            let ghost keys0 = keys@;
            keys.push(key);
            found.push(blob);
            proof {
                let bv2 = blob_views(found@);
                assert(bv2 =~= bv.push(b));
                assert(sized_keys(keys@, bv2)) by {
                    assert forall|k: int| 0 <= k < bv2.len() implies #[trigger] keys@[k] == -(
                    bv2[k].len() as int) by {
                        if k < bv.len() {
                            assert(keys@[k] == keys0[k]);
                        }
                    }
                }
                assert forall|c: usize| c < m.len() && #[trigger] seen@[c as int] implies exists|
                    k: int,
                |
                    0 <= k < bv2.len() && (#[trigger] bv2[k]).contains(c) by {
                    if s0[c as int] {
                        let k = choose|k: int| 0 <= k < bv.len() && (#[trigger] bv[k]).contains(c);
                        assert(bv2[k] == bv[k]);
                    } else {
                        assert(bv2[bv.len() as int].contains(c));
                    }
                }
                assert forall|k: int, i: int|
                    0 <= k < bv2.len() && 0 <= i < bv2[k].len() implies seen@[#[trigger] bv2[k][i] as int] by {
                    if k < bv.len() {
                        assert(bv2[k] == bv[k]);
                        assert(is_blob(m, wi, bv[k]));
                        assert(s0[bv[k][i] as int]);
                    } else {
                        assert(b.contains(b[i]));
                        assert(b[i] < m.len());
                    }
                }
                assert forall|k: int, l: int, c: usize|
                    0 <= k < l < bv2.len() && #[trigger] bv2[k].contains(
                        c,
                    ) implies !#[trigger] bv2[l].contains(c) by {
                    if l == bv.len() {
                        let i = choose|i: int| 0 <= i < bv[k].len() && bv[k][i] == c;
                        assert(s0[bv[k][i] as int]);
                        if b.contains(c) {
                            let j = choose|j: int| 0 <= j < b.len() && b[j] == c;
                            assert(!s0[b[j] as int]);
                        }
                    } else {
                        assert(bv2[k] == bv[k] && bv2[l] == bv[l]);
                    }
                }
                assert forall|c: int| 0 <= c < start + 1 && m[c] implies #[trigger] seen@[c] by {
                    if c < start {
                        assert(s0[c]);
                        assert(seen@[(c as usize) as int]);
                    } else {
                        assert(b[0] == start);
                        assert(b.contains(start));
                        assert(seen@[(start as usize) as int]);
                    }
                }
                assert(found_blobs(m, wi, start + 1, seen@, bv2));
            }
        }
        start += 1;
    }
    let order = stable_order(&keys);
    let ghost fv = blob_views(found@);
    let count: usize = found.len();
    let mut out: Vec<Vec<usize>> = Vec::new();
    let mut k: usize = 0;
    while k < order.len()
        invariant
            k <= order@.len(),
            order@.len() == found@.len(),
            keys@.len() == found@.len(),
            is_order(keys@, order@),
            fv == blob_views(found@),
            out@.len() == k,
            forall|j: int| 0 <= j < k ==> (#[trigger] out@[j])@ == fv[order@[j] as int],
        decreases order@.len() - k,
    {
        let b = found[order[k]].clone();
        assert(b@ =~= fv[order@[k as int] as int]);
        out.push(b);
        k += 1;
    }
    proof {
        lemma_ordered_blobs(m, wi, seen@, fv, keys@, order@, blob_views(out@));
    }
    out
}

/// `out` lists the entries of `found` in the given order.
pub open spec fn reordered(
    found: Seq<Seq<usize>>,
    keys: Seq<i64>,
    order: Seq<usize>,
    out: Seq<Seq<usize>>,
) -> bool {
    &&& keys.len() == found.len()
    &&& is_order(keys, order)
    &&& out.len() == found.len()
    &&& found.len() <= usize::MAX
    &&& forall|k: int| 0 <= k < out.len() ==> #[trigger] out[k] == found[order[k] as int]
}

proof fn lemma_reordered_cover(
    found: Seq<Seq<usize>>,
    keys: Seq<i64>,
    order: Seq<usize>,
    out: Seq<Seq<usize>>,
    q: int,
) -> (k: int)
    requires
        reordered(found, keys, order, out),
        0 <= q < found.len(),
    ensures
        0 <= k < out.len(),
        out[k] == found[q],
{
    assert(order.contains(q as usize));
    let k = choose|k: int| 0 <= k < order.len() && order[k] == q as usize;
    assert(out[k] == found[order[k] as int]);
    k
}

proof fn lemma_reordered_sizes(
    found: Seq<Seq<usize>>,
    keys: Seq<i64>,
    order: Seq<usize>,
    out: Seq<Seq<usize>>,
)
    requires
        reordered(found, keys, order, out),
        sized_keys(keys, found),
        forall|k: int, l: int|
            0 <= k < l < found.len() ==> (#[trigger] found[k])[0] < (#[trigger] found[l])[0],
    ensures
        forall|k: int, l: int|
            0 <= k < l < out.len() ==> blob_before(#[trigger] out[k], #[trigger] out[l]),
{
    assert forall|k: int, l: int| 0 <= k < l < out.len() implies blob_before(
        #[trigger] out[k],
        #[trigger] out[l],
    ) by {
        let a = order[k] as int;
        let b = order[l] as int;
        assert(before(keys, a, b));
        assert(keys[a] == -(found[a].len() as int));
        assert(keys[b] == -(found[b].len() as int));
        assert(out[k] == found[a] && out[l] == found[b]);
        if a < b {
            assert(found[a][0] < found[b][0]);
        }
    }
}

proof fn lemma_reordered_disjoint(
    found: Seq<Seq<usize>>,
    keys: Seq<i64>,
    order: Seq<usize>,
    out: Seq<Seq<usize>>,
)
    requires
        reordered(found, keys, order, out),
        forall|k: int, l: int, c: usize|
            0 <= k < l < found.len() && #[trigger] found[k].contains(c)
                ==> !#[trigger] found[l].contains(c),
    ensures
        forall|k: int, l: int, c: usize|
            0 <= k < l < out.len() && #[trigger] out[k].contains(c)
                ==> !#[trigger] out[l].contains(c),
{
    assert forall|k: int, l: int, c: usize|
        0 <= k < l < out.len() && #[trigger] out[k].contains(c) implies !#[trigger] out[l].contains(
        c,
    ) by {
        let a = order[k] as int;
        let b = order[l] as int;
        assert(before(keys, a, b));
        assert(out[k] == found[a] && out[l] == found[b]);
        assert(found[a].contains(c));
        if found[b].contains(c) {
            if a < b {
                assert(!found[b].contains(c));
            } else {
                assert(!found[a].contains(c));
            }
        }
    }
}

proof fn lemma_ordered_blobs(
    mask: Seq<bool>,
    w: int,
    seen: Seq<bool>,
    found: Seq<Seq<usize>>,
    keys: Seq<i64>,
    order: Seq<usize>,
    out: Seq<Seq<usize>>,
)
    requires
        found_blobs(mask, w, mask.len() as int, seen, found),
        sized_keys(keys, found),
        reordered(found, keys, order, out),
    ensures
        are_blobs(mask, w, out),
{
    lemma_reordered_sizes(found, keys, order, out);
    lemma_reordered_disjoint(found, keys, order, out);
    assert forall|k: int| 0 <= k < out.len() implies is_blob(mask, w, #[trigger] out[k]) by {
        assert(0 <= order[k] < found.len());
        assert(is_blob(mask, w, found[order[k] as int]));
    }
    assert forall|c: usize| c < mask.len() && mask[c as int] implies exists|k: int|
        0 <= k < out.len() && (#[trigger] out[k]).contains(c) by {
        assert(seen[c as int]);
        let q = choose|q: int| 0 <= q < found.len() && (#[trigger] found[q]).contains(c);
        let k = lemma_reordered_cover(found, keys, order, out, q);
        assert(out[k].contains(c));
    }
}

// ---------------------------------------------------------------------------
// Bounding box
// ---------------------------------------------------------------------------
/// Left, top, right and bottom of the cells of a blob, right and bottom
/// included.
pub open spec fn box_of(blob: Seq<usize>, w: int) -> (int, int, int, int)
    decreases blob.len(),
{
    if blob.len() == 0 {
        (usize::MAX as int, usize::MAX as int, 0, 0)
    } else {
        let (x0, y0, x1, y1) = box_of(blob.drop_last(), w);
        let x = blob.last() as int % w;
        let y = blob.last() as int / w;
        (
            if x < x0 {
                x
            } else {
                x0
            },
            if y < y0 {
                y
            } else {
                y0
            },
            if x > x1 {
                x
            } else {
                x1
            },
            if y > y1 {
                y
            } else {
                y1
            },
        )
    }
}

/// The smallest box that holds every cell of a blob.
pub fn bounding_box(blob: &Vec<usize>, w: usize) -> (r: (usize, usize, usize, usize))
    requires
        w > 0,
    ensures
        (r.0 as int, r.1 as int, r.2 as int, r.3 as int) == box_of(blob@, w as int),
{
    let mut x0: usize = usize::MAX;
    let mut y0: usize = usize::MAX;
    let mut x1: usize = 0;
    let mut y1: usize = 0;
    let mut i: usize = 0;
    while i < blob.len()
        invariant
            i <= blob@.len(),
            w > 0,
            (x0 as int, y0 as int, x1 as int, y1 as int) == box_of(
                blob@.take(i as int),
                w as int,
            ),
        decreases blob@.len() - i,
    {
        assert(blob@.take(i + 1).drop_last() =~= blob@.take(i as int));
        let x: usize = blob[i] % w;
        let y: usize = blob[i] / w;
        if x < x0 {
            x0 = x;
        }
        if y < y0 {
            y0 = y;
        }
        if x > x1 {
            x1 = x;
        }
        if y > y1 {
            y1 = y;
        }
        i += 1;
    }
    assert(blob@.take(i as int) =~= blob@);
    (x0, y0, x1, y1)
}

/// The box holds every cell of the blob, and each of its sides touches one.
pub proof fn law_box_is_tight(blob: Seq<usize>, w: int)
    requires
        w > 0,
        blob.len() > 0,
    ensures
        ({
            let (x0, y0, x1, y1) = box_of(blob, w);
            &&& forall|i: int|
                0 <= i < blob.len() ==> x0 <= (#[trigger] blob[i]) as int % w <= x1 && y0
                    <= blob[i] as int / w <= y1
            &&& exists|i: int| 0 <= i < blob.len() && (#[trigger] blob[i]) as int % w == x0
            &&& exists|i: int| 0 <= i < blob.len() && (#[trigger] blob[i]) as int / w == y0
            &&& exists|i: int| 0 <= i < blob.len() && (#[trigger] blob[i]) as int % w == x1
            &&& exists|i: int| 0 <= i < blob.len() && (#[trigger] blob[i]) as int / w == y1
        }),
    decreases blob.len(),
{
    let front = blob.drop_last();
    let n = front.len() as int;
    let last = blob[n] as int;
    vstd::arithmetic::div_mod::lemma_mod_bound(last, w);
    vstd::arithmetic::div_mod::lemma_div_pos_is_pos(last, w);
    vstd::arithmetic::div_mod::lemma_mod_decreases(blob[n] as nat, w as nat);
    vstd::arithmetic::div_mod::lemma_div_nonincreasing(last, w);
    if n > 0 {
        law_box_is_tight(front, w);
        let (x0, y0, x1, y1) = box_of(front, w);
        let (bx0, by0, bx1, by1) = box_of(blob, w);
        let a = choose|i: int| 0 <= i < front.len() && (#[trigger] front[i]) as int % w == x0;
        let b = choose|i: int| 0 <= i < front.len() && (#[trigger] front[i]) as int / w == y0;
        let c = choose|i: int| 0 <= i < front.len() && (#[trigger] front[i]) as int % w == x1;
        let d = choose|i: int| 0 <= i < front.len() && (#[trigger] front[i]) as int / w == y1;
        assert(blob[a] == front[a] && blob[b] == front[b] && blob[c] == front[c] && blob[d]
            == front[d]);
        assert forall|i: int| 0 <= i < blob.len() implies bx0 <= (#[trigger] blob[i]) as int % w
            <= bx1 && by0 <= blob[i] as int / w <= by1 by {
            if i < n {
                assert(blob[i] == front[i]);
            }
        }
        assert(blob[a] as int % w == bx0 || blob[n] as int % w == bx0);
        assert(blob[b] as int / w == by0 || blob[n] as int / w == by0);
        assert(blob[c] as int % w == bx1 || blob[n] as int % w == bx1);
        assert(blob[d] as int / w == by1 || blob[n] as int / w == by1);
    } else {
        assert(front =~= Seq::<usize>::empty());
        assert(box_of(front, w) == (usize::MAX as int, usize::MAX as int, 0int, 0int));
        assert(blob[n] as int % w <= blob[n]);
        assert(blob[0] as int % w == box_of(blob, w).0);
        assert(blob[0] as int / w == box_of(blob, w).1);
    }
}

// ---------------------------------------------------------------------------
// Cameras move all the time
// ---------------------------------------------------------------------------
/// How much the first `n` cells of a blob change between two frames.
pub open spec fn blob_change(blob: Seq<usize>, a: Seq<u8>, b: Seq<u8>, n: int) -> int
    decreases n,
{
    if n <= 0 {
        0
    } else {
        blob_change(blob, a, b, n - 1) + gap(
            a[blob[n - 1] as int] as int,
            b[blob[n - 1] as int] as int,
        )
    }
}

/// The blob moves between two frames: its mean change is over half a level.
pub open spec fn moves(blob: Seq<usize>, a: Seq<u8>, b: Seq<u8>) -> bool {
    1_000_000 * blob_change(blob, a, b, blob.len() as int) > BUSY_DIFF * blob.len()
}

/// In how many of the first `n` pairs of neighbouring frames the blob moves.
pub open spec fn moving_pairs(blob: Seq<usize>, frames: Seq<Seq<u8>>, n: int) -> int
    decreases n,
{
    if n <= 0 {
        0
    } else {
        moving_pairs(blob, frames, n - 1) + (if moves(blob, frames[n - 1], frames[n]) {
            1int
        } else {
            0
        })
    }
}

/// The blob is a camera: it moves in over nine tenths of the pairs.
pub open spec fn is_camera(blob: Seq<usize>, frames: Seq<Seq<u8>>) -> bool {
    1_000_000 * moving_pairs(blob, frames, frames.len() - 1) > MAX_BUSY * (frames.len() - 1)
}

/// Every cell of the blob is a cell of a frame.
pub open spec fn cells_fit(blob: Seq<usize>) -> bool {
    forall|i: int| 0 <= i < blob.len() ==> (#[trigger] blob[i]) < CELLS
}

/// In how many pairs of neighbouring frames a blob moves, and how many pairs
/// there are.
pub fn busy_fraction(blob: &Vec<usize>, frames: &Vec<Vec<u8>>) -> (r: (usize, usize))
    requires
        frames@.len() >= 1,
        full_frames(frames@),
        cells_fit(blob@),
    ensures
        r.0 == moving_pairs(blob@, frame_views(frames@), frames@.len() - 1),
        r.1 == frames@.len() - 1,
        r.0 <= r.1,
{
    let ghost fv = frame_views(frames@);
    let n: usize = frames.len();
    let m: usize = blob.len();
    let mut busy: usize = 0;
    let mut k: usize = 1;
    while k < n
        invariant
            1 <= k <= n,
            n == frames@.len(),
            m == blob@.len(),
            full_frames(frames@),
            cells_fit(blob@),
            fv == frame_views(frames@),
            busy <= k - 1,
            busy == moving_pairs(blob@, fv, k - 1),
        decreases n - k,
    {
        assert(frames@[k - 1]@.len() >= CELLS && frames@[k as int]@.len() >= CELLS);
        assert(fv[k - 1] == frames@[k - 1]@ && fv[k as int] == frames@[k as int]@);
        let mut sum: u128 = 0;
        let mut i: usize = 0;
        while i < m
            invariant
                1 <= k < n,
                i <= m == blob@.len(),
                n == frames@.len(),
                frames@[k - 1]@.len() >= CELLS,
                frames@[k as int]@.len() >= CELLS,
                cells_fit(blob@),
                fv[k - 1] == frames@[k - 1]@,
                fv[k as int] == frames@[k as int]@,
                sum <= 255 * i,
                sum == blob_change(blob@, fv[k - 1], fv[k as int], i as int),
            decreases m - i,
        {
            let c: usize = blob[i];
            sum = sum + byte_gap(frames[k - 1][c], frames[k][c]) as u128;
            i += 1;
        }
        if 1_000_000 * sum > BUSY_DIFF as u128 * m as u128 {
            busy += 1;
        }
        k += 1;
    }
    (busy, n - 1)
}

// ---------------------------------------------------------------------------
// The crop
// ---------------------------------------------------------------------------
/// A region of the full frame, on even coordinates.
#[derive(Clone, Copy, Debug, PartialEq, Eq, Structural)]
pub struct Crop {
    pub w: u64,
    pub h: u64,
    pub x: u64,
    pub y: u64,
}

pub open spec fn even_down(n: int) -> int {
    n - n % 2
}

/// Where a span of grid cells starts in the full frame, on an even pixel.
pub open spec fn span_start(c0: int, size: int, cells: int) -> int {
    even_down(c0 * size / cells)
}

/// Where a span of grid cells ends in the full frame, rounded outward.
pub open spec fn span_end(c1: int, size: int, cells: int) -> int {
    let end = ((c1 + 1) * size + cells - 1) / cells;
    if end < size {
        end
    } else {
        size
    }
}

/// How long the span is, on an even number of pixels.
pub open spec fn span_len(c0: int, c1: int, size: int, cells: int) -> int {
    even_down(span_end(c1, size, cells) - span_start(c0, size, cells) + 1)
}

/// A box of grid cells in a full frame, snapped outward to even pixels.
pub open spec fn crop_of(bx: (int, int, int, int), width: int, height: int) -> Crop {
    Crop {
        w: span_len(bx.0, bx.2, width, GRID_W as int) as u64,
        h: span_len(bx.1, bx.3, height, GRID_H as int) as u64,
        x: span_start(bx.0, width, GRID_W as int) as u64,
        y: span_start(bx.1, height, GRID_H as int) as u64,
    }
}

fn span(c0: usize, c1: usize, size: u32, cells: u64) -> (r: (u64, u64))
    requires
        c0 <= c1 < cells <= 160,
    ensures
        r.0 == span_start(c0 as int, size as int, cells as int),
        r.1 == span_len(c0 as int, c1 as int, size as int, cells as int),
{
    let ghost (a, b, s, n) = (c0 as int, c1 as int, size as int, cells as int);
    proof {
        assert(0 <= a * s && a * s <= (b + 1) * s && (b + 1) * s <= 160 * s) by (nonlinear_arith)
            requires
                0 <= a <= b,
                b + 1 <= 160,
                0 <= s,
        ;
        assert(a * s <= a * s + 0);
    }
    let from: u64 = c0 as u64 * size as u64 / cells;
    let x: u64 = from - from % 2;
    let end: u64 = ((c1 as u64 + 1) * size as u64 + cells - 1) / cells;
    let x1: u64 = if end < size as u64 {
        end
    } else {
        size as u64
    };
    proof {
        lemma_span(a, b, s, n);
    }
    let len: u64 = x1 - x + 1;
    (x, len - len % 2)
}

/// A span never ends before it starts.
proof fn lemma_span(a: int, b: int, s: int, n: int)
    requires
        0 <= a <= b < n,
        0 <= s,
    ensures
        0 <= a * s / n <= span_end(b, s, n) <= s,
{
    assert(a * s <= (b + 1) * s + n - 1 && a * s <= n * s && 0 <= a * s) by (nonlinear_arith)
        requires
            0 <= a <= b < n,
            0 <= s,
    ;
    vstd::arithmetic::div_mod::lemma_div_is_ordered(a * s, (b + 1) * s + n - 1, n);
    vstd::arithmetic::div_mod::lemma_div_is_ordered(a * s, n * s, n);
    vstd::arithmetic::div_mod::lemma_div_pos_is_pos(a * s, n);
    assert(n * s / n == s) by (nonlinear_arith)
        requires
            n > 0,
    ;
}

/// The box in full-frame pixels lies inside the frame, holds the cells it was
/// made from, and sits on even coordinates.
pub proof fn law_crop_holds_the_cells(c0: int, c1: int, size: int, cells: int)
    requires
        0 <= c0 <= c1 < cells,
        0 <= size,
    ensures
        ({
            let x = span_start(c0, size, cells);
            let len = span_len(c0, c1, size, cells);
            &&& x % 2 == 0 && len % 2 == 0
            &&& 0 <= x
            &&& x * cells <= c0 * size
            &&& (c1 + 1) * size <= (x + len) * cells
            &&& x + len <= size + 1
        }),
{
    lemma_span(c0, c1, size, cells);
    let from = c0 * size / cells;
    let up = ((c1 + 1) * size + cells - 1) / cells;
    crate::plan::lemma_quotient(c0 * size, cells, from);
    crate::plan::lemma_quotient((c1 + 1) * size + cells - 1, cells, up);
    let x = span_start(c0, size, cells);
    let e = span_end(c1, size, cells);
    let len = span_len(c0, c1, size, cells);
    assert(x <= from && e <= x + len);
    assert(x * cells <= c0 * size) by (nonlinear_arith)
        requires
            x <= from,
            cells * from <= c0 * size,
            cells > 0,
    ;
    assert((c1 + 1) * size <= e * cells) by (nonlinear_arith)
        requires
            (c1 + 1) * size + cells - 1 < cells * up + cells,
            e == up || e == size,
            c1 + 1 <= cells,
            0 <= size,
            cells > 0,
    ;
    assert(e * cells <= (x + len) * cells) by (nonlinear_arith)
        requires
            e <= x + len,
            cells > 0,
    ;
}

/// The first blob, largest first, that is big enough and not a camera.
pub open spec fn content_blob(
    blobs: Seq<Seq<usize>>,
    frames: Seq<Seq<u8>>,
    k: int,
) -> Option<Seq<usize>>
    decreases blobs.len() - k,
{
    if k >= blobs.len() {
        None
    } else if blobs[k].len() >= MIN_BLOB && !is_camera(blobs[k], frames) {
        Some(blobs[k])
    } else {
        content_blob(blobs, frames, k + 1)
    }
}

/// How much each cell changes over all the frames.
pub open spec fn activity_sums(frames: Seq<Seq<u8>>) -> Seq<u64> {
    Seq::new(CELLS as nat, |c: int| total_change(frames, c, frames.len() - 1) as u64)
}

/// Picks the content region out of the blobs of a mask.
pub fn pick_content(
    bs: &Vec<Vec<usize>>,
    frames: &Vec<Vec<u8>>,
    width: u32,
    height: u32,
) -> (crop: Option<Crop>)
    requires
        frames@.len() >= 1,
        full_frames(frames@),
        forall|k: int| 0 <= k < bs@.len() ==> cells_fit((#[trigger] bs@[k])@),
    ensures
        crop == (match content_blob(blob_views(bs@), frame_views(frames@), 0) {
            Some(b) => Some(crop_of(box_of(b, GRID_W as int), width as int, height as int)),
            None => None,
        }),
{
    let ghost bv = blob_views(bs@);
    let ghost fv = frame_views(frames@);
    let mut k: usize = 0;
    while k < bs.len()
        invariant
            k <= bs@.len(),
            frames@.len() >= 1,
            full_frames(frames@),
            forall|k: int| 0 <= k < bs@.len() ==> cells_fit((#[trigger] bs@[k])@),
            bv == blob_views(bs@),
            fv == frame_views(frames@),
            content_blob(bv, fv, 0) == content_blob(bv, fv, k as int),
        decreases bs@.len() - k,
    {
        let b = &bs[k];
        assert(bv[k as int] == b@);
        assert(cells_fit(bs@[k as int]@));
        if b.len() >= MIN_BLOB {
            let (busy, pairs) = busy_fraction(b, frames);
            if !(1_000_000 * busy as u128 > MAX_BUSY as u128 * pairs as u128) {
                let (x0, y0, x1, y1) = bounding_box(b, GRID_W);
                proof {
                    law_box_is_tight(b@, GRID_W as int);
                    lemma_box_fits(b@);
                }
                let (x, w) = span(x0, x1, width, 160);
                let (y, h) = span(y0, y1, height, 90);
                return Some(Crop { w, h, x, y });
            }
        }
        k += 1;
    }
    None
}

/// The box of a blob lies on the grid.
proof fn lemma_box_fits(blob: Seq<usize>)
    requires
        blob.len() > 0,
        cells_fit(blob),
    ensures
        ({
            let (x0, y0, x1, y1) = box_of(blob, 160);
            0 <= x0 <= x1 < 160 && 0 <= y0 <= y1 < 90
        }),
{
    law_box_is_tight(blob, 160);
    let (x0, y0, x1, y1) = box_of(blob, 160);
    let c = choose|i: int| 0 <= i < blob.len() && (#[trigger] blob[i]) as int % 160 == x1;
    let d = choose|i: int| 0 <= i < blob.len() && (#[trigger] blob[i]) as int / 160 == y1;
    let a = choose|i: int| 0 <= i < blob.len() && (#[trigger] blob[i]) as int % 160 == x0;
    let b = choose|i: int| 0 <= i < blob.len() && (#[trigger] blob[i]) as int / 160 == y0;
    assert(blob[c] < CELLS && blob[d] < CELLS);
    assert(x0 <= blob[c] as int % 160);
    assert(y0 <= blob[d] as int / 160);
}

/// The crop that a mask of content cells leads to.
pub open spec fn crop_for(
    cells: Seq<bool>,
    frames: Seq<Seq<u8>>,
    width: int,
    height: int,
    crop: Option<Crop>,
) -> bool {
    exists|bs: Seq<Seq<usize>>| #[trigger]
        are_blobs(cells, GRID_W as int, bs) && crop == (match content_blob(bs, frames, 0) {
            Some(b) => Some(crop_of(box_of(b, GRID_W as int), width, height)),
            None => None,
        })
}

/// The content region: the part of the frame that actually changes. `None`
/// where there is none, which is what a talking head looks like.
pub fn detect_crop(frames: &Vec<Vec<u8>>, width: u32, height: u32) -> (crop: Option<Crop>)
    requires
        1 <= frames@.len() <= 0x1_0000_0000,
        full_frames(frames@),
    ensures
        ({
            let fv = frame_views(frames@);
            if too_still(activity_sums(fv), frames@.len() - 1) {
                crop is None
            } else {
                crop_for(
                    content_cells(activity_sums(fv)),
                    fv,
                    width as int,
                    height as int,
                    crop,
                )
            }
        }),
{
    let activity = cell_activity(frames);
    let ghost fv = frame_views(frames@);
    assert(activity.sums@ =~= activity_sums(fv));
    match content_mask(&activity) {
        None => None,
        Some((mask, _)) => {
            assert(mask@.len() == GRID_W * GRID_H);
            let bs = blobs(&mask, GRID_W, GRID_H);
            let ghost bv = blob_views(bs@);
            assert forall|k: int| 0 <= k < bs@.len() implies cells_fit((#[trigger] bs@[k])@) by {
                assert(is_blob(mask@, GRID_W as int, bv[k]));
            }
            let crop = pick_content(&bs, frames, width, height);
            assert(are_blobs(mask@, GRID_W as int, bv));
            crop
        },
    }
}

pub open spec fn crop_text(c: Crop) -> Seq<char> {
    decimal(c.w as nat) + seq![':'] + decimal(c.h as nat) + seq![':'] + decimal(c.x as nat) + seq![
        ':',
    ] + decimal(c.y as nat)
}

impl Crop {
    /// The whole frame.
    pub fn whole(width: u32, height: u32) -> (c: Crop)
        ensures
            c == (Crop { w: width as u64, h: height as u64, x: 0, y: 0 }),
    {
        Crop { w: width as u64, h: height as u64, x: 0, y: 0 }
    }

    /// The region as `w:h:x:y`.
    pub fn text(&self) -> (r: String)
        ensures
            r@ == crop_text(*self),
    {
        let mut r = String::new();
        push_decimal(&mut r, self.w);
        r.push(':');
        push_decimal(&mut r, self.h);
        r.push(':');
        push_decimal(&mut r, self.x);
        r.push(':');
        push_decimal(&mut r, self.y);
        assert(r@ =~= crop_text(*self));
        r
    }
}

/// Frames per second at which a recording is sampled, to the nearest of the
/// fifteenth decimal place.
pub open spec fn sample_rate_of(duration: int) -> int {
    scaled(200_000_000, 1_000_000_000_000_000, duration)
}

/// A rate of that many places, with no more of them than it needs.
pub open spec fn rate_text(m: nat) -> Seq<char> {
    let whole = decimal(m / 1_000_000_000_000_000);
    let part = m % 1_000_000_000_000_000;
    if part == 0 {
        whole
    } else {
        whole.push('.') + drop_back(low_digits(part, 15), |c: char| c == '0')
    }
}

/// The video filter that samples frames evenly across a recording.
pub fn sample_filter(duration_us: i64) -> (r: String)
    requires
        0 < duration_us,
    ensures
        r@ == "fps="@ + rate_text(sample_rate_of(duration_us as int) as nat)
            + ",scale=160:90,format=gray"@,
{
    let d: i128 = duration_us as i128;
    let m: i128 = (2 * 200_000_000 * 1_000_000_000_000_000 + d) / (2 * d);
    assert(m == sample_rate_of(duration_us as int));
    let whole: u64 = (m / 1_000_000_000_000_000) as u64;
    let part: u64 = (m % 1_000_000_000_000_000) as u64;
    let mut r = String::new();
    r.append("fps=");
    push_decimal(&mut r, whole);
    if part != 0 {
        r.push('.');
        push_low_digits_trimmed(&mut r, part, 15);
    }
    assert(r@ =~= "fps="@ + rate_text(m as nat));
    r.append(",scale=160:90,format=gray");
    r
}

// ---------------------------------------------------------------------------
// Laws
// ---------------------------------------------------------------------------
/// Frame after frame is read from the bytes, 160 by 90 cells each, and only a
/// part of a frame at the end is left over.
pub proof fn law_frames_follow_each_other(bytes: Seq<u8>, k: int, c: int)
    requires
        0 <= k < frames_of(bytes).len(),
        0 <= c < 160 * 90,
    ensures
        frames_of(bytes)[k].len() == 160 * 90,
        k * (160 * 90) + c < bytes.len(),
        frames_of(bytes)[k][c] == bytes[k * (160 * 90) + c],
        frames_of(bytes).len() * (160 * 90) <= bytes.len(),
        bytes.len() < (frames_of(bytes).len() + 1) * (160 * 90),
{
}

/// The steps that a cell takes from frame to frame, upward or downward.
pub open spec fn steps_of(frames: Seq<Seq<u8>>, c: int, n: int) -> Seq<int> {
    Seq::new(
        n as nat,
        |k: int|
            if frames[k][c] <= frames[k + 1][c] {
                frames[k + 1][c] - frames[k][c]
            } else {
                frames[k][c] - frames[k + 1][c]
            },
    )
}

/// A cell changes by the sum of its steps.
pub proof fn law_change_is_the_sum_of_the_steps(frames: Seq<Seq<u8>>, c: int, n: int)
    requires
        0 <= n,
    ensures
        total_change(frames, c, n) == steps_of(frames, c, n).fold_left(
            0int,
            |sum: int, d: int| sum + d,
        ),
    decreases n,
{
    let f = |sum: int, d: int| sum + d;
    let s = steps_of(frames, c, n);
    if n > 0 {
        law_change_is_the_sum_of_the_steps(frames, c, n - 1);
        assert(s.drop_last() =~= steps_of(frames, c, n - 1));
        assert(s.fold_left(0int, f) == f(s.drop_last().fold_left(0int, f), s.last()));
    }
}

/// No sum is over the peak, and one of them reaches it.
pub proof fn law_peak_is_the_largest(sums: Seq<u64>)
    ensures
        forall|i: int| 0 <= i < sums.len() ==> #[trigger] sums[i] <= peak(sums),
        sums.len() > 0 ==> exists|i: int| 0 <= i < sums.len() && #[trigger] sums[i] == peak(sums),
        sums.len() == 0 ==> peak(sums) == 0,
        0 <= peak(sums),
    decreases sums.len(),
{
    if sums.len() > 0 {
        let front = sums.drop_last();
        law_peak_is_the_largest(front);
        assert forall|i: int| 0 <= i < sums.len() implies #[trigger] sums[i] <= peak(sums) by {
            if i < front.len() {
                assert(sums[i] == front[i]);
            }
        }
        let n = sums.len() - 1;
        if sums[n] > peak(front) {
            assert(sums[n] == peak(sums));
        } else if front.len() > 0 {
            let i = choose|i: int| 0 <= i < front.len() && #[trigger] front[i] == peak(front);
            assert(sums[i] == peak(sums));
        } else {
            assert(sums[n] == peak(sums));
        }
    }
}

/// A cell is content when it changes by more than eight hundredths of what the
/// liveliest cell does, and there is content at all when that cell changes by
/// two levels a frame or more.
pub proof fn law_content_is_what_changes(sums: Seq<u64>, pairs: int, i: int, best: int)
    requires
        0 <= i < sums.len(),
        0 <= best < sums.len(),
        forall|j: int| 0 <= j < sums.len() ==> #[trigger] sums[j] <= sums[best],
        0 <= pairs,
    ensures
        content_cells(sums).len() == sums.len(),
        content_cells(sums)[i] <==> 100 * sums[i] > 8 * sums[best],
        too_still(sums, pairs) <==> pairs == 0 || sums[best] < 2 * pairs,
{
    law_peak_is_the_largest(sums);
    let j = choose|j: int| 0 <= j < sums.len() && #[trigger] sums[j] == peak(sums);
    assert(sums[j] <= sums[best] <= peak(sums));
}

/// How far apart the cells of a blob are in two frames.
pub open spec fn cell_steps(blob: Seq<usize>, a: Seq<u8>, b: Seq<u8>) -> Seq<int> {
    Seq::new(
        blob.len(),
        |i: int|
            {
                let (x, y) = (a[blob[i] as int] as int, b[blob[i] as int] as int);
                if x <= y {
                    y - x
                } else {
                    x - y
                }
            },
    )
}

proof fn lemma_blob_change(blob: Seq<usize>, a: Seq<u8>, b: Seq<u8>, n: int)
    requires
        0 <= n <= blob.len(),
    ensures
        blob_change(blob, a, b, n) == cell_steps(blob, a, b).take(n).fold_left(
            0int,
            |sum: int, d: int| sum + d,
        ),
    decreases n,
{
    let f = |sum: int, d: int| sum + d;
    let s = cell_steps(blob, a, b).take(n);
    if n > 0 {
        lemma_blob_change(blob, a, b, n - 1);
        assert(s.drop_last() =~= cell_steps(blob, a, b).take(n - 1));
        assert(s.fold_left(0int, f) == f(s.drop_last().fold_left(0int, f), s.last()));
    }
}

/// A blob moves between two frames when its cells are more than half a level
/// apart on average.
pub proof fn law_moving_is_half_a_level(blob: Seq<usize>, a: Seq<u8>, b: Seq<u8>)
    ensures
        moves(blob, a, b) <==> 2 * cell_steps(blob, a, b).fold_left(
            0int,
            |sum: int, d: int| sum + d,
        ) > blob.len(),
{
    lemma_blob_change(blob, a, b, blob.len() as int);
    assert(cell_steps(blob, a, b).take(blob.len() as int) =~= cell_steps(blob, a, b));
}

/// The pairs of neighbouring frames, up to the `n`-th, between which the blob
/// moves.
pub open spec fn moved_at(blob: Seq<usize>, frames: Seq<Seq<u8>>, n: int) -> Set<int> {
    vstd::set_lib::set_int_range(0, n).filter(|k: int| moves(blob, frames[k], frames[k + 1]))
}

proof fn lemma_moving_pairs(blob: Seq<usize>, frames: Seq<Seq<u8>>, n: int)
    requires
        0 <= n,
    ensures
        moved_at(blob, frames, n).finite(),
        moving_pairs(blob, frames, n) == moved_at(blob, frames, n).len(),
    decreases n,
{
    vstd::set_lib::lemma_int_range(0, n);
    vstd::set_lib::set_int_range(0, n).lemma_len_filter(
        |k: int| moves(blob, frames[k], frames[k + 1]),
    );
    if n > 0 {
        lemma_moving_pairs(blob, frames, n - 1);
        let (s, t) = (moved_at(blob, frames, n), moved_at(blob, frames, n - 1));
        if moves(blob, frames[n - 1], frames[n]) {
            assert(s =~= t.insert(n - 1));
        } else {
            assert(s =~= t);
        }
    } else {
        assert(moved_at(blob, frames, n) =~= Set::empty());
    }
}

/// A blob is a camera when it moves in more than nine of ten pairs of
/// neighbouring frames.
pub proof fn law_cameras_move_nine_times_in_ten(blob: Seq<usize>, frames: Seq<Seq<u8>>)
    requires
        frames.len() >= 1,
    ensures
        is_camera(blob, frames) <==> 10 * moved_at(blob, frames, frames.len() - 1).len() > 9 * (
        frames.len() - 1),
{
    lemma_moving_pairs(blob, frames, frames.len() - 1);
}

proof fn lemma_content_blob(bs: Seq<Seq<usize>>, frames: Seq<Seq<u8>>, k: int)
    requires
        0 <= k <= bs.len(),
    ensures
        match content_blob(bs, frames, k) {
            Some(b) => exists|i: int|
                k <= i < bs.len() && #[trigger] bs[i] == b && b.len() >= MIN_BLOB && !is_camera(
                    b,
                    frames,
                ) && (forall|j: int|
                    k <= j < i ==> (#[trigger] bs[j]).len() < MIN_BLOB || is_camera(
                        bs[j],
                        frames,
                    )),
            None => forall|j: int|
                k <= j < bs.len() ==> (#[trigger] bs[j]).len() < MIN_BLOB || is_camera(
                    bs[j],
                    frames,
                ),
        },
    decreases bs.len() - k,
{
    if k < bs.len() {
        lemma_content_blob(bs, frames, k + 1);
        if bs[k].len() >= MIN_BLOB && !is_camera(bs[k], frames) {
            assert(bs[k] == bs[k]);
        } else if content_blob(bs, frames, k + 1) is Some {
            let b = content_blob(bs, frames, k + 1).unwrap();
            let i = choose|i: int|
                k + 1 <= i < bs.len() && #[trigger] bs[i] == b && b.len() >= MIN_BLOB
                    && !is_camera(b, frames) && (forall|j: int|
                    k + 1 <= j < i ==> (#[trigger] bs[j]).len() < MIN_BLOB || is_camera(
                        bs[j],
                        frames,
                    ));
            assert forall|j: int| k <= j < i implies (#[trigger] bs[j]).len() < MIN_BLOB
                || is_camera(bs[j], frames) by {
                if j > k {
                    assert(k + 1 <= j);
                }
            }
        }
    }
}

/// A blob is the largest of them that qualifies: it has fifty cells or more and
/// is no camera, and every blob with more cells is a camera, as is every one as
/// large that lies nearer the top left.
pub open spec fn largest_region(
    bs: Seq<Seq<usize>>,
    frames: Seq<Seq<u8>>,
    b: Seq<usize>,
) -> bool {
    &&& exists|i: int| 0 <= i < bs.len() && #[trigger] bs[i] == b
    &&& b.len() >= 50
    &&& !is_camera(b, frames)
    &&& forall|j: int|
        0 <= j < bs.len() && ((#[trigger] bs[j]).len() > b.len() || bs[j].len() == b.len()
            && bs[j][0] < b[0]) ==> is_camera(bs[j], frames)
}

/// Every blob is smaller than fifty cells or a camera.
pub open spec fn no_region(bs: Seq<Seq<usize>>, frames: Seq<Seq<u8>>) -> bool {
    forall|j: int|
        0 <= j < bs.len() ==> (#[trigger] bs[j]).len() < 50 || is_camera(bs[j], frames)
}

/// The region that is chosen is the largest one that qualifies. Where none is
/// chosen, every blob is too small or a camera.
pub proof fn law_the_largest_region_is_chosen(
    cells: Seq<bool>,
    bs: Seq<Seq<usize>>,
    frames: Seq<Seq<u8>>,
)
    requires
        are_blobs(cells, 160, bs),
    ensures
        content_blob(bs, frames, 0) matches Some(b) ==> largest_region(bs, frames, b),
        content_blob(bs, frames, 0) is None ==> no_region(bs, frames),
{
    lemma_content_blob(bs, frames, 0);
    if content_blob(bs, frames, 0) is Some {
        let b = content_blob(bs, frames, 0).unwrap();
        let i = choose|i: int|
            0 <= i < bs.len() && #[trigger] bs[i] == b && b.len() >= MIN_BLOB && !is_camera(
                b,
                frames,
            ) && (forall|j: int|
                0 <= j < i ==> (#[trigger] bs[j]).len() < MIN_BLOB || is_camera(bs[j], frames));
        assert(bs[i] == b);
        assert forall|j: int|
            0 <= j < bs.len() && ((#[trigger] bs[j]).len() > b.len() || bs[j].len() == b.len()
                && bs[j][0] < b[0]) implies is_camera(bs[j], frames) by {
            if j > i {
                assert(blob_before(bs[i], bs[j]));
            }
        }
    }
}

/// The crop that is found is the box of the largest region that qualifies, and
/// there is no crop only where there is no such region.
pub proof fn law_the_crop_is_of_the_largest_region(
    cells: Seq<bool>,
    frames: Seq<Seq<u8>>,
    width: int,
    height: int,
    crop: Option<Crop>,
) -> (r: (Seq<Seq<usize>>, Seq<usize>))
    requires
        crop_for(cells, frames, width, height, crop),
    ensures
        are_blobs(cells, 160, r.0),
        crop matches Some(c) ==> largest_region(r.0, frames, r.1) && c == crop_of(
            box_of(r.1, 160),
            width,
            height,
        ),
        crop is None ==> no_region(r.0, frames),
{
    let bs = choose|bs: Seq<Seq<usize>>| #[trigger]
        are_blobs(cells, GRID_W as int, bs) && crop == (match content_blob(bs, frames, 0) {
            Some(b) => Some(crop_of(box_of(b, GRID_W as int), width, height)),
            None => None,
        });
    law_the_largest_region_is_chosen(cells, bs, frames);
    match content_blob(bs, frames, 0) {
        Some(b) => (bs, b),
        None => (bs, Seq::empty()),
    }
}

/// The crop goes no further out than it must: by less than two pixels beyond
/// the cells on each side.
pub proof fn law_crop_goes_no_further_than_it_must(c0: int, c1: int, size: int, cells: int)
    requires
        0 <= c0 <= c1 < cells,
        0 <= size,
    ensures
        ({
            let x = span_start(c0, size, cells);
            let len = span_len(c0, c1, size, cells);
            &&& (x + 2) * cells > c0 * size
            &&& (x + len) * cells < (c1 + 1) * size + 2 * cells
        }),
{
    lemma_span(c0, c1, size, cells);
    let from = c0 * size / cells;
    let up = ((c1 + 1) * size + cells - 1) / cells;
    crate::plan::lemma_quotient(c0 * size, cells, from);
    crate::plan::lemma_quotient((c1 + 1) * size + cells - 1, cells, up);
    let x = span_start(c0, size, cells);
    let e = span_end(c1, size, cells);
    let len = span_len(c0, c1, size, cells);
    assert((x + 2) * cells > c0 * size) by (nonlinear_arith)
        requires
            x + 1 >= from,
            c0 * size < cells * from + cells,
            cells > 0,
    ;
    assert((x + len) * cells < (c1 + 1) * size + 2 * cells) by (nonlinear_arith)
        requires
            x + len <= e + 1,
            e <= up,
            cells * up <= (c1 + 1) * size + cells - 1,
            cells > 0,
    ;
}

/// Recordings of any length are sampled two hundred times: the rate times the
/// duration is two hundred frames, as nearly as fifteen decimals can say it.
pub proof fn law_recordings_are_sampled_two_hundred_times(duration_us: int)
    requires
        0 < duration_us,
    ensures
        ({
            let wanted = 200_000_000 * 1_000_000_000_000_000;
            2 * wanted - duration_us < 2 * duration_us * sample_rate_of(duration_us) <= 2 * wanted
                + duration_us
        }),
{
    crate::plan::law_scaling_goes_to_the_nearest(
        200_000_000,
        1_000_000_000_000_000,
        duration_us,
    );
}

/// A crop is written as four numbers between colons: the width, the height, and
/// how far in from the left and from the top it starts.
pub proof fn law_a_crop_is_written_width_first(c: Crop, w: int, h: int, x: int)
    requires
        0 <= w < h < x < crop_text(c).len(),
        crop_text(c)[w] == ':',
        crop_text(c)[h] == ':',
        crop_text(c)[x] == ':',
    ensures
        value(crop_text(c).take(w)) == c.w,
        value(crop_text(c).subrange(w + 1, h)) == c.h,
        value(crop_text(c).subrange(h + 1, x)) == c.x,
        value(crop_text(c).skip(x + 1)) == c.y,
{
    let t = crop_text(c);
    let (a, b, d, e) = (
        decimal(c.w as nat),
        decimal(c.h as nat),
        decimal(c.x as nat),
        decimal(c.y as nat),
    );
    law_decimals_read_back(c.w as nat);
    law_decimals_read_back(c.h as nat);
    law_decimals_read_back(c.x as nat);
    law_decimals_read_back(c.y as nat);
    let (p, q, r) = (a.len() as int, a.len() + 1 + b.len(), a.len() + b.len() + d.len() + 2);
    assert forall|k: int| 0 <= k < t.len() && t[k] == ':' implies k == p || k == q || k == r by {
        if k < p {
            assert(t[k] == a[k]);
        } else if p < k < q {
            assert(t[k] == b[k - p - 1]);
        } else if q < k < r {
            assert(t[k] == d[k - q - 1]);
        } else if k > r {
            assert(t[k] == e[k - r - 1]);
        }
    }
    assert(t.take(w) =~= a);
    assert(t.subrange(w + 1, h) =~= b);
    assert(t.subrange(h + 1, x) =~= d);
    assert(t.skip(x + 1) =~= e);
}

} // verus!
