//! Runs of a boolean mask.
use vstd::prelude::*;

verus! {

/// The maximal runs of `true` in `mask[from..to]`, in order, as half-open
/// index pairs.
pub open spec fn runs_between(mask: Seq<bool>, from: int, to: int) -> Seq<(usize, usize)>
    decreases to - from,
{
    if to <= from {
        Seq::empty()
    } else {
        let r = runs_between(mask, from, to - 1);
        if !mask[to - 1] {
            r
        } else if r.len() > 0 && r.last().1 == to - 1 {
            r.drop_last().push((r.last().0, to as usize))
        } else {
            r.push(((to - 1) as usize, to as usize))
        }
    }
}

/// The maximal runs of `true` in a mask.
pub open spec fn runs(mask: Seq<bool>) -> Seq<(usize, usize)> {
    runs_between(mask, 0, mask.len() as int)
}

/// The mask with every bit turned over.
pub open spec fn inverted(mask: Seq<bool>) -> Seq<bool> {
    Seq::new(mask.len(), |i: int| !mask[i])
}

/// `[a, b)` is a maximal run of `v` in `mask`.
pub open spec fn is_run(mask: Seq<bool>, v: bool, a: int, b: int) -> bool {
    &&& 0 <= a < b <= mask.len()
    &&& forall|i: int| a <= i < b ==> mask[i] == v
    &&& a == 0 || mask[a - 1] != v
    &&& b == mask.len() || mask[b] != v
}

/// Every run lies in `[from, to)`, runs do not touch, and an index of
/// `[from, to)` is set exactly when a run holds it.
pub proof fn lemma_runs_between(mask: Seq<bool>, from: int, to: int)
    requires
        0 <= from,
        to <= mask.len() <= usize::MAX,
    ensures
        ({
            let r = runs_between(mask, from, to);
            &&& forall|k: int|
                0 <= k < r.len() ==> from <= (#[trigger] r[k]).0 < r[k].1 <= to && (forall|i: int|
                    r[k].0 <= i < r[k].1 ==> mask[i])
            &&& forall|k: int, l: int| 0 <= k < l < r.len() ==> (#[trigger] r[k]).1 < (#[trigger] r[l]).0
            &&& forall|i: int|
                from <= i < to && #[trigger] mask[i] ==> exists|k: int|
                    0 <= k < r.len() && (#[trigger] r[k]).0 <= i < r[k].1
        }),
    decreases to - from,
{
    if to > from {
        lemma_runs_between(mask, from, to - 1);
        let r = runs_between(mask, from, to - 1);
        let s = runs_between(mask, from, to);
        let n = (s.len() - 1) as int;
        if mask[to - 1] {
            if r.len() > 0 && r.last().1 == to - 1 {
                assert(s[n] == (r.last().0, to as usize));
                assert forall|k: int| 0 <= k < n implies s[k] == r[k] by {}
            } else {
                assert(s[n] == ((to - 1) as usize, to as usize));
                assert forall|k: int| 0 <= k < n implies s[k] == r[k] by {}
            }
        }
        assert forall|i: int| from <= i < to && #[trigger] mask[i] implies exists|k: int|
            0 <= k < s.len() && (#[trigger] s[k]).0 <= i < s[k].1 by {
            if i == to - 1 {
                assert(s[n].0 <= i < s[n].1);
            } else {
                let k = choose|k: int| 0 <= k < r.len() && (#[trigger] r[k]).0 <= i < r[k].1;
                assert(s[k].0 <= i < s[k].1);
            }
        }
    }
}

/// The listed runs of a mask are exactly its maximal runs.
pub proof fn lemma_runs(mask: Seq<bool>)
    requires
        mask.len() <= usize::MAX,
    ensures
        forall|k: int|
            0 <= k < runs(mask).len() ==> is_run(
                mask,
                true,
                (#[trigger] runs(mask)[k]).0 as int,
                runs(mask)[k].1 as int,
            ),
        forall|a: int, b: int|
            is_run(mask, true, a, b) ==> runs(mask).contains((a as usize, b as usize)),
        forall|k: int, l: int|
            0 <= k < l < runs(mask).len() ==> (#[trigger] runs(mask)[k]).1 < (
            #[trigger] runs(mask)[l]).0,
{
    let r = runs(mask);
    lemma_runs_between(mask, 0, mask.len() as int);
    assert forall|k: int| 0 <= k < r.len() implies is_run(
        mask,
        true,
        (#[trigger] r[k]).0 as int,
        r[k].1 as int,
    ) by {
        let a = r[k].0 as int;
        let b = r[k].1 as int;
        if a > 0 && mask[a - 1] {
            let l = choose|l: int| 0 <= l < r.len() && (#[trigger] r[l]).0 <= a - 1 < r[l].1;
            assert(l != k);
        }
        if b < mask.len() && mask[b] {
            let l = choose|l: int| 0 <= l < r.len() && (#[trigger] r[l]).0 <= b < r[l].1;
            assert(l != k);
        }
    }
    assert forall|a: int, b: int| is_run(mask, true, a, b) implies r.contains(
        (a as usize, b as usize),
    ) by {
        assert(mask[a]);
        let k = choose|k: int| 0 <= k < r.len() && (#[trigger] r[k]).0 <= a < r[k].1;
        let c = r[k].0 as int;
        let d = r[k].1 as int;
        assert(is_run(mask, true, c, d));
        assert(c == a) by {
            if c < a {
                assert(mask[a - 1]);
            }
        }
        assert(d == b) by {
            if d < b {
                assert(mask[d]);
            } else if b < d {
                assert(mask[b]);
            }
        }
        assert(r[k] == (a as usize, b as usize));
    }
}

/// Adds index `i`, when `set`, to the runs found so far.
pub fn extend_runs(out: &mut Vec<(usize, usize)>, i: usize, set: bool)
    requires
        i < usize::MAX,
    ensures
        final(out)@ == (if !set {
            old(out)@
        } else if old(out)@.len() > 0 && old(out)@.last().1 == i {
            old(out)@.drop_last().push((old(out)@.last().0, (i + 1) as usize))
        } else {
            old(out)@.push((i, (i + 1) as usize))
        }),
{
    if set {
        let n: usize = out.len();
        if n > 0 && out[n - 1].1 == i {
            let start: usize = out[n - 1].0;
            out.set(n - 1, (start, i + 1));
            assert(out@ == old(out)@.drop_last().push((old(out)@.last().0, (i + 1) as usize)));
        } else {
            out.push((i, i + 1));
        }
    }
}

/// The runs of `v` in `mask`.
pub fn runs_of(mask: &Vec<bool>, v: bool) -> (out: Vec<(usize, usize)>)
    ensures
        out@ == runs(
            if v {
                mask@
            } else {
                inverted(mask@)
            },
        ),
{
    let ghost m = if v {
        mask@
    } else {
        inverted(mask@)
    };
    let mut out: Vec<(usize, usize)> = Vec::new();
    let mut i: usize = 0;
    while i < mask.len()
        invariant
            i <= mask@.len(),
            m == (if v {
                mask@
            } else {
                inverted(mask@)
            }),
            out@ == runs_between(m, 0, i as int),
        decreases mask@.len() - i,
    {
        extend_runs(&mut out, i, mask[i] == v);
        i += 1;
    }
    out
}

/// How many bits of a mask are set.
pub open spec fn count_set(mask: Seq<bool>) -> nat
    decreases mask.len(),
{
    if mask.len() == 0 {
        0
    } else {
        count_set(mask.drop_last()) + (if mask.last() {
            1nat
        } else {
            0
        })
    }
}

/// Counts the set bits of a mask.
pub fn set_bits(mask: &Vec<bool>) -> (n: usize)
    ensures
        n == count_set(mask@),
        n <= mask@.len(),
{
    let mut n: usize = 0;
    let mut i: usize = 0;
    while i < mask.len()
        invariant
            i <= mask@.len(),
            n <= i,
            n == count_set(mask@.take(i as int)),
        decreases mask@.len() - i,
    {
        assert(mask@.take(i + 1).drop_last() == mask@.take(i as int));
        if mask[i] {
            n += 1;
        }
        i += 1;
    }
    assert(mask@.take(i as int) == mask@);
    n
}

/// Sets `mask[from..to]` to `v`.
pub fn fill(mask: &mut Vec<bool>, from: usize, to: usize, v: bool)
    requires
        from <= to <= old(mask)@.len(),
    ensures
        final(mask)@.len() == old(mask)@.len(),
        forall|i: int|
            0 <= i < old(mask)@.len() ==> #[trigger] final(mask)@[i] == (if from <= i < to {
                v
            } else {
                old(mask)@[i]
            }),
{
    let mut i: usize = from;
    while i < to
        invariant
            from <= i <= to <= mask@.len(),
            mask@.len() == old(mask)@.len(),
            forall|k: int|
                0 <= k < mask@.len() ==> #[trigger] mask@[k] == (if from <= k < i {
                    v
                } else {
                    old(mask)@[k]
                }),
        decreases to - i,
    {
        mask.set(i, v);
        i += 1;
    }
}

/// There are no more runs than bits.
pub proof fn lemma_runs_count(mask: Seq<bool>, from: int, to: int)
    requires
        from <= to,
    ensures
        runs_between(mask, from, to).len() <= to - from,
    decreases to - from,
{
    if from < to {
        lemma_runs_count(mask, from, to - 1);
    }
}

/// As many bits are counted as there are places that are set.
pub proof fn law_every_set_bit_counts_once(mask: Seq<bool>)
    ensures
        count_set(mask) == vstd::set_lib::set_int_range(0, mask.len() as int).filter(
            |i: int| mask[i],
        ).len(),
    decreases mask.len(),
{
    let n = mask.len() as int;
    let p = |i: int| mask[i];
    let all = vstd::set_lib::set_int_range(0, n);
    vstd::set_lib::lemma_int_range(0, n);
    all.lemma_len_filter(p);
    if n > 0 {
        let front = mask.drop_last();
        let q = |i: int| front[i];
        law_every_set_bit_counts_once(front);
        let less = vstd::set_lib::set_int_range(0, n - 1);
        vstd::set_lib::lemma_int_range(0, n - 1);
        less.lemma_len_filter(q);
        if mask[n - 1] {
            assert(all.filter(p) =~= less.filter(q).insert(n - 1));
        } else {
            assert(all.filter(p) =~= less.filter(q));
        }
    } else {
        assert(all.filter(p) =~= Set::empty());
    }
}

} // verus!
