//! What the disfluency stage tells the user about its decisions.
use vstd::prelude::*;

use crate::disfluency::{cut_views, Align, Cut, CutView, Kind, Rejected, Why};
use crate::num::{fixed, show_fixed};
use crate::text::same;

verus! {

impl Kind {
    pub open spec fn spec_name(self) -> Seq<char> {
        match self {
            Kind::Filler => "filler"@,
            Kind::Stutter => "stutter"@,
            Kind::Repeat => "repeat"@,
        }
    }

    pub fn name(&self) -> (s: &'static str)
        ensures
            s@ == self.spec_name(),
    {
        match self {
            Kind::Filler => "filler",
            Kind::Stutter => "stutter",
            Kind::Repeat => "repeat",
        }
    }
}

impl Align {
    pub open spec fn spec_name(self) -> Seq<char> {
        match self {
            Align::KeepLast => "keep-last"@,
            Align::KeepLastAlt => "keep-last-alt"@,
            Align::DropFirst => "drop-first"@,
            Align::DropSecond => "drop-second"@,
            Align::Span => "span"@,
        }
    }

    pub fn name(&self) -> (s: &'static str)
        ensures
            s@ == self.spec_name(),
    {
        match self {
            Align::KeepLast => "keep-last",
            Align::KeepLastAlt => "keep-last-alt",
            Align::DropFirst => "drop-first",
            Align::DropSecond => "drop-second",
            Align::Span => "span",
        }
    }
}

impl Why {
    /// The first word of the reason.
    pub open spec fn spec_key(self) -> Seq<char> {
        match self {
            Why::Similarity { .. } => "similarity"@,
            Why::Duration { .. } => "duration"@,
            Why::Splice { .. } => "splice"@,
            Why::QuietRun { .. } => "quiet"@,
            Why::Overlap => "overlap"@,
            Why::NotNormal => "not"@,
            Why::NoAlignment => "no"@,
        }
    }

    pub fn key(&self) -> (s: &'static str)
        ensures
            s@ == self.spec_key(),
    {
        match self {
            Why::Similarity { .. } => "similarity",
            Why::Duration { .. } => "duration",
            Why::Splice { .. } => "splice",
            Why::QuietRun { .. } => "quiet",
            Why::Overlap => "overlap",
            Why::NotNormal => "not",
            Why::NoAlignment => "no",
        }
    }

    /// The reason in words.
    pub open spec fn spec_text(self) -> Seq<char> {
        self.spec_key() + match self {
            Why::Similarity { sim } => " "@ + fixed(sim as int, 2),
            Why::Duration { us } => " "@ + fixed(us as int, 2) + "s"@,
            Why::Splice { level } => " "@ + fixed(level as int, 0) + "dB"@,
            Why::QuietRun { start_us, end_us } => " run "@ + fixed(start_us as int, 2) + "s/"@
                + fixed(end_us as int, 2) + "s"@,
            Why::Overlap => Seq::empty(),
            Why::NotNormal => " in a 1x segment"@,
            Why::NoAlignment => " alignment"@,
        }
    }

    pub fn text(&self) -> (r: String)
        ensures
            r@ == self.spec_text(),
    {
        let mut r = String::new();
        r.append(self.key());
        assert(r@ =~= self.spec_key());
        match self {
            Why::Similarity { sim } => {
                r.append(" ");
                r.append(show_fixed(*sim, 2).as_str());
            },
            Why::Duration { us } => {
                r.append(" ");
                r.append(show_fixed(*us, 2).as_str());
                r.append("s");
            },
            Why::Splice { level } => {
                r.append(" ");
                r.append(show_fixed(*level, 0).as_str());
                r.append("dB");
            },
            Why::QuietRun { start_us, end_us } => {
                r.append(" run ");
                r.append(show_fixed(*start_us, 2).as_str());
                r.append("s/");
                r.append(show_fixed(*end_us, 2).as_str());
                r.append("s");
            },
            Why::Overlap => {},
            Why::NotNormal => {
                r.append(" in a 1x segment");
            },
            Why::NoAlignment => {
                r.append(" alignment");
            },
        }
        assert(r@ =~= self.spec_text());
        r
    }
}

/// How many candidates were thrown out for the reason `key`.
pub open spec fn count_key(rejected: Seq<Rejected>, key: Seq<char>) -> nat
    decreases rejected.len(),
{
    if rejected.len() == 0 {
        0
    } else {
        count_key(rejected.drop_last(), key) + (if rejected.last().why.spec_key() == key {
            1nat
        } else {
            0
        })
    }
}

/// The keys that occur, each once, in order of first appearance.
pub open spec fn distinct_keys(rejected: Seq<Rejected>) -> Seq<Seq<char>>
    decreases rejected.len(),
{
    if rejected.len() == 0 {
        Seq::empty()
    } else {
        let r = distinct_keys(rejected.drop_last());
        let key = rejected.last().why.spec_key();
        if r.contains(key) {
            r
        } else {
            r.push(key)
        }
    }
}

/// Why candidates were thrown out: each reason with how often it came up, in
/// order of first appearance.
pub fn why_counts(rejected: &Vec<Rejected>) -> (out: Vec<(String, usize)>)
    ensures
        out@.len() == distinct_keys(rejected@).len(),
        forall|k: int|
            0 <= k < out@.len() ==> (#[trigger] out@[k]).0@ == distinct_keys(rejected@)[k]
                && out@[k].1 == count_key(rejected@, out@[k].0@),
{
    let mut out: Vec<(String, usize)> = Vec::new();
    let mut i: usize = 0;
    while i < rejected.len()
        invariant
            i <= rejected@.len(),
            out@.len() == distinct_keys(rejected@.take(i as int)).len(),
            forall|k: int|
                0 <= k < out@.len() ==> (#[trigger] out@[k]).0@ == distinct_keys(
                    rejected@.take(i as int),
                )[k] && out@[k].1 == count_key(rejected@.take(i as int), out@[k].0@),
        decreases rejected@.len() - i,
    {
        let ghost t = rejected@.take(i as int);
        let ghost t1 = rejected@.take(i + 1);
        assert(t1.drop_last() =~= t);
        let key = rejected[i].why.key();
        let ghost before = out@;
        proof {
            lemma_distinct(t);
        }
        let mut found: Option<usize> = None;
        let mut k: usize = 0;
        while k < out.len() && found.is_none()
            invariant
                k <= out@.len(),
                out@ == before,
                match found {
                    Some(m) => m < out@.len() && out@[m as int].0@ == key@,
                    None => forall|m: int| 0 <= m < k ==> (#[trigger] out@[m]).0@ != key@,
                },
            decreases
                out@.len() - k,
                (if found.is_none() {
                    1int
                } else {
                    0
                }),
        {
            if same(out[k].0.as_str(), key) {
                found = Some(k);
            } else {
                k += 1;
            }
        }
        match found {
            Some(m) => {
                let n: usize = out[m].1;
                let name = out[m].0.clone();
                proof {
                    lemma_count_bounded(t, key@);
                    assert(distinct_keys(t)[m as int] == key@);
                }
                out.set(m, (name, n + 1));
                assert(distinct_keys(t1) == distinct_keys(t));
                assert forall|k: int| 0 <= k < out@.len() implies (#[trigger] out@[k]).0@
                    == distinct_keys(t1)[k] && out@[k].1 == count_key(t1, out@[k].0@) by {
                    if k != m {
                        assert(out@[k] == before[k]);
                        assert(distinct_keys(t)[k] != distinct_keys(t)[m as int]);
                    }
                }
            },
            None => {
                let name = key.to_string();
                out.push((name, 1));
                assert(!distinct_keys(t).contains(key@)) by {
                    if distinct_keys(t).contains(key@) {
                        let k = choose|k: int|
                            0 <= k < distinct_keys(t).len() && distinct_keys(t)[k] == key@;
                        assert(before[k].0@ == key@);
                    }
                }
                proof {
                    lemma_count_zero(t, key@);
                }
                assert forall|k: int| 0 <= k < out@.len() implies (#[trigger] out@[k]).0@
                    == distinct_keys(t1)[k] && out@[k].1 == count_key(t1, out@[k].0@) by {
                    if k < before.len() {
                        assert(out@[k] == before[k]);
                    }
                }
            },
        }
        i += 1;
    }
    assert(rejected@.take(i as int) =~= rejected@);
    out
}

proof fn lemma_distinct(rejected: Seq<Rejected>)
    ensures
        forall|a: int, b: int|
            0 <= a < b < distinct_keys(rejected).len() ==> #[trigger] distinct_keys(rejected)[a]
                != #[trigger] distinct_keys(rejected)[b],
    decreases rejected.len(),
{
    if rejected.len() > 0 {
        lemma_distinct(rejected.drop_last());
        let r = distinct_keys(rejected.drop_last());
        let all = distinct_keys(rejected);
        assert forall|a: int, b: int| 0 <= a < b < all.len() implies #[trigger] all[a]
            != #[trigger] all[b] by {
            if b < r.len() {
                assert(all[a] == r[a] && all[b] == r[b]);
            } else {
                assert(all[a] == r[a]);
                assert(r.contains(r[a]));
            }
        }
    }
}

proof fn lemma_count_bounded(rejected: Seq<Rejected>, key: Seq<char>)
    ensures
        count_key(rejected, key) <= rejected.len(),
    decreases rejected.len(),
{
    if rejected.len() > 0 {
        lemma_count_bounded(rejected.drop_last(), key);
    }
}

proof fn lemma_count_zero(rejected: Seq<Rejected>, key: Seq<char>)
    requires
        !distinct_keys(rejected).contains(key),
    ensures
        count_key(rejected, key) == 0,
    decreases rejected.len(),
{
    if rejected.len() > 0 {
        let front = rejected.drop_last();
        let d = distinct_keys(front);
        let all = distinct_keys(rejected);
        let last = rejected.last().why.spec_key();
        if d.contains(key) {
            let k = choose|k: int| 0 <= k < d.len() && d[k] == key;
            assert(all[k] == key);
            assert(all.contains(key));
        }
        if last == key {
            if !d.contains(key) {
                assert(all[d.len() as int] == key);
                assert(all.contains(key));
            }
        }
        lemma_count_zero(front, key);
    }
}

// ---------------------------------------------------------------------------
// Totals per kind
// ---------------------------------------------------------------------------
/// Accepted and proposed cuts of one kind.
#[derive(Clone, Copy, Debug, PartialEq, Eq, Structural)]
pub struct Tally {
    pub accepted: usize,
    pub proposed: usize,
    /// How long the accepted cuts are together.
    pub removed_us: i128,
}

pub open spec fn count_cuts(cuts: Seq<CutView>, kind: Kind) -> nat
    decreases cuts.len(),
{
    if cuts.len() == 0 {
        0
    } else {
        count_cuts(cuts.drop_last(), kind) + (if cuts.last().kind == kind {
            1nat
        } else {
            0
        })
    }
}

pub open spec fn removed(cuts: Seq<CutView>, kind: Kind) -> int
    decreases cuts.len(),
{
    if cuts.len() == 0 {
        0
    } else {
        removed(cuts.drop_last(), kind) + (if cuts.last().kind == kind {
            cuts.last().end - cuts.last().start
        } else {
            0
        })
    }
}

pub open spec fn count_rejected(rejected: Seq<Rejected>, kind: Kind) -> nat
    decreases rejected.len(),
{
    if rejected.len() == 0 {
        0
    } else {
        count_rejected(rejected.drop_last(), kind) + (if rejected.last().kind == kind {
            1nat
        } else {
            0
        })
    }
}

/// Counts the cuts of one kind, and how many seconds they remove.
pub fn tally(cuts: &Vec<Cut>, rejected: &Vec<Rejected>, kind: Kind) -> (t: Tally)
    requires
        cuts@.len() + rejected@.len() <= usize::MAX,
        cuts@.len() <= 0x3fff_ffff_ffff_ffff,
    ensures
        t.accepted == count_cuts(cut_views(cuts@), kind),
        t.proposed == count_cuts(cut_views(cuts@), kind) + count_rejected(rejected@, kind),
        t.removed_us == removed(cut_views(cuts@), kind),
{
    let ghost cv = cut_views(cuts@);
    let mut accepted: usize = 0;
    let mut removed_us: i128 = 0;
    let mut k: usize = 0;
    while k < cuts.len()
        invariant
            k <= cuts@.len(),
            cuts@.len() <= 0x3fff_ffff_ffff_ffff,
            cv == cut_views(cuts@),
            accepted <= k,
            accepted == count_cuts(cv.take(k as int), kind),
            removed_us == removed(cv.take(k as int), kind),
            -0x1_0000_0000_0000_0000 * k <= removed_us <= 0x1_0000_0000_0000_0000 * k,
        decreases cuts@.len() - k,
    {
        assert(cv.take(k + 1).drop_last() =~= cv.take(k as int));
        assert(cv[k as int] == cuts@[k as int]@);
        if cuts[k].kind == kind {
            accepted += 1;
            removed_us = removed_us + (cuts[k].end as i128 - cuts[k].start as i128);
        }
        k += 1;
    }
    assert(cv.take(k as int) =~= cv);
    let mut refused: usize = 0;
    let mut j: usize = 0;
    while j < rejected.len()
        invariant
            j <= rejected@.len(),
            refused <= j,
            refused == count_rejected(rejected@.take(j as int), kind),
        decreases rejected@.len() - j,
    {
        assert(rejected@.take(j + 1).drop_last() =~= rejected@.take(j as int));
        if rejected[j].kind == kind {
            refused += 1;
        }
        j += 1;
    }
    assert(rejected@.take(j as int) =~= rejected@);
    Tally { accepted, proposed: accepted + refused, removed_us }
}

// ---------------------------------------------------------------------------
// Laws
// ---------------------------------------------------------------------------
/// Every cut is of one kind: the counts of the three kinds add up to all the
/// cuts, and what they remove adds up to what all of them remove.
pub proof fn law_kinds_add_up(cuts: Seq<CutView>)
    ensures
        count_cuts(cuts, Kind::Filler) + count_cuts(cuts, Kind::Stutter) + count_cuts(
            cuts,
            Kind::Repeat,
        ) == cuts.len(),
        removed(cuts, Kind::Filler) + removed(cuts, Kind::Stutter) + removed(cuts, Kind::Repeat)
            == total_removed(cuts),
    decreases cuts.len(),
{
    if cuts.len() > 0 {
        law_kinds_add_up(cuts.drop_last());
    }
}

/// How long all the cuts are together.
pub open spec fn total_removed(cuts: Seq<CutView>) -> int
    decreases cuts.len(),
{
    if cuts.len() == 0 {
        0
    } else {
        total_removed(cuts.drop_last()) + (cuts.last().end - cuts.last().start)
    }
}

/// As many cuts of a kind are counted as there are.
pub proof fn law_cuts_of_a_kind_are_counted_once(cuts: Seq<CutView>, kind: Kind)
    ensures
        count_cuts(cuts, kind) == cuts.filter(|c: CutView| c.kind == kind).len(),
    decreases cuts.len(),
{
    reveal(Seq::filter);
    if cuts.len() > 0 {
        law_cuts_of_a_kind_are_counted_once(cuts.drop_last(), kind);
    }
}

/// As many rejections of a kind are counted as there are.
pub proof fn law_rejections_of_a_kind_are_counted_once(rejected: Seq<Rejected>, kind: Kind)
    ensures
        count_rejected(rejected, kind) == rejected.filter(|r: Rejected| r.kind == kind).len(),
    decreases rejected.len(),
{
    reveal(Seq::filter);
    if rejected.len() > 0 {
        law_rejections_of_a_kind_are_counted_once(rejected.drop_last(), kind);
    }
}

/// As many rejections are counted under a reason as were for it.
pub proof fn law_reasons_are_counted_once(rejected: Seq<Rejected>, key: Seq<char>)
    ensures
        count_key(rejected, key) == rejected.filter(
            |r: Rejected| r.why.spec_key() == key,
        ).len(),
    decreases rejected.len(),
{
    reveal(Seq::filter);
    if rejected.len() > 0 {
        law_reasons_are_counted_once(rejected.drop_last(), key);
    }
}

/// A reason is listed exactly when something was rejected for it, and no reason
/// twice.
pub proof fn law_reasons_are_listed_once(rejected: Seq<Rejected>, key: Seq<char>)
    ensures
        distinct_keys(rejected).contains(key) <==> exists|k: int|
            0 <= k < rejected.len() && (#[trigger] rejected[k]).why.spec_key() == key,
        distinct_keys(rejected).no_duplicates(),
    decreases rejected.len(),
{
    lemma_distinct(rejected);
    let d = distinct_keys(rejected);
    assert forall|a: int, b: int|
        0 <= a < d.len() && 0 <= b < d.len() && a != b implies d[a] != d[b] by {
        if a < b {
            assert(d[a] != d[b]);
        } else {
            assert(d[b] != d[a]);
        }
    }
    if rejected.len() > 0 {
        let front = rejected.drop_last();
        law_reasons_are_listed_once(front, key);
        let r = distinct_keys(front);
        let n = rejected.len() - 1;
        let last = rejected[n].why.spec_key();
        if r.contains(key) {
            let k = choose|k: int| 0 <= k < r.len() && r[k] == key;
            assert(d[k] == key);
            let j = choose|j: int|
                0 <= j < front.len() && (#[trigger] front[j]).why.spec_key() == key;
            assert(rejected[j] == front[j]);
        }
        if last == key {
            assert(rejected[n].why.spec_key() == key);
            if !r.contains(last) {
                assert(d[d.len() - 1] == key);
            }
        }
        if d.contains(key) {
            let k = choose|k: int| 0 <= k < d.len() && d[k] == key;
            if k < r.len() {
                assert(r[k] == key);
            }
        }
        if exists|k: int| 0 <= k < rejected.len() && (#[trigger] rejected[k]).why.spec_key() == key {
            let k = choose|k: int|
                0 <= k < rejected.len() && (#[trigger] rejected[k]).why.spec_key() == key;
            if k < n {
                assert(front[k] == rejected[k]);
            }
        }
    }
}

} // verus!
