//! Disfluency removal: the only thing that cuts inside speech, so every
//! candidate must survive a gauntlet before it is allowed.
//!
//! What to cut comes from the word sequence. Where to cut comes from the
//! waveform. Never the other way round.
//!
//! Three kinds: stutters, repeated phrases and detachable fillers.
use vstd::prelude::*;

use crate::captions::{words_fit, Word};
use crate::constants::{
    CUT_SPACING_US, FILLER_GAP_US, FILLER_LEAD_US, FILLER_MAX_US, FILLER_STOP_US, FILLER_TAIL_US,
    KEEP_GAP_US, MAX_CUT_US, MAX_PHRASE, MAX_TAKE_GAP_US, MIN_CUT_US, MIN_PHRASE, QUIET_DB,
    QUIET_RUN_US, SEARCH_WORDS, SIM_MIN, STUTTER_GAP_US, TIME_MAX,
};
use crate::order::{order_of, stable_order};
use crate::plan::{in_source_order, plays, plays_as_recorded, Segment, Speed};
use crate::quiet::{
    energy_fits, near, quiet_before, quiet_before_us, quiet_run, quiet_run_us, snap_in, snapped,
    speech_end, speech_end_before,
};
use crate::text::{bare, join, joined, lower, same, trim, trim_symbols, trimmed, views};

verus! {

// ---------------------------------------------------------------------------
// Types
// ---------------------------------------------------------------------------
#[derive(Clone, Copy, Debug, PartialEq, Eq, Structural)]
pub enum Kind {
    Filler,
    Stutter,
    Repeat,
}

/// Which splice alignment a cut uses.
#[derive(Clone, Copy, Debug, PartialEq, Eq, Structural)]
pub enum Align {
    /// Removes every take but the last.
    KeepLast,
    /// The same, with both splice points one phrase later.
    KeepLastAlt,
    /// Removes the first copy only.
    DropFirst,
    /// The same, with both splice points one phrase later.
    DropSecond,
    /// A filler has one span only.
    Span,
}

/// One place to cut, before it is moved to a quiet point.
#[derive(Clone, Copy, Debug, PartialEq, Eq, Structural)]
pub struct Splice {
    pub start: i64,
    pub end: i64,
    pub align: Align,
}

/// A word as the detectors see it.
#[derive(Debug)]
pub struct Token {
    /// Lower case, without surrounding punctuation.
    pub norm: String,
    pub start: i64,
    pub end: i64,
    /// The word as transcribed, trimmed.
    pub raw: String,
}

#[verifier::ext_equal]
pub struct TokenView {
    pub norm: Seq<char>,
    pub start: i64,
    pub end: i64,
    pub raw: Seq<char>,
}

impl View for Token {
    type V = TokenView;

    open spec fn view(&self) -> TokenView {
        TokenView { norm: self.norm@, start: self.start, end: self.end, raw: self.raw@ }
    }
}

/// A proposal, carrying every splice alignment worth trying. The first that
/// passes is taken, not the best: removing one copy beats removing none.
#[derive(Debug)]
pub struct Candidate {
    pub opts: Vec<Splice>,
    pub kind: Kind,
    pub text: String,
    /// How many takes of the phrase were found.
    pub takes: usize,
    /// Where the first take is spoken.
    pub first_take: (i64, i64),
    /// Where the last take is spoken.
    pub last_take: (i64, i64),
}

#[verifier::ext_equal]
pub struct CandidateView {
    pub opts: Seq<Splice>,
    pub kind: Kind,
    pub text: Seq<char>,
    pub takes: int,
    pub first_take: (i64, i64),
    pub last_take: (i64, i64),
}

impl View for Candidate {
    type V = CandidateView;

    open spec fn view(&self) -> CandidateView {
        CandidateView {
            opts: self.opts@,
            kind: self.kind,
            text: self.text@,
            takes: self.takes as int,
            first_take: self.first_take,
            last_take: self.last_take,
        }
    }
}

pub open spec fn token_views(toks: Seq<Token>) -> Seq<TokenView> {
    Seq::new(toks.len(), |k: int| toks[k]@)
}

pub open spec fn candidate_views(cands: Seq<Candidate>) -> Seq<CandidateView> {
    Seq::new(cands.len(), |k: int| cands[k]@)
}

// ---------------------------------------------------------------------------
// Tokens
// ---------------------------------------------------------------------------
/// A word ready for comparison.
pub open spec fn normal_form(s: Seq<char>) -> Seq<char> {
    lower(bare(trimmed(s)))
}

/// The words that hold more than white space.
pub open spec fn tokens_of(words: Seq<Word>) -> Seq<TokenView>
    decreases words.len(),
{
    if words.len() == 0 {
        Seq::empty()
    } else {
        let r = tokens_of(words.drop_last());
        let w = words.last();
        if trimmed(w.text@).len() == 0 {
            r
        } else {
            r.push(
                TokenView {
                    norm: normal_form(w.text@),
                    start: w.start,
                    end: w.end,
                    raw: trimmed(w.text@),
                },
            )
        }
    }
}

/// Normalises a word for comparison: lower case, no surrounding punctuation.
pub fn norm(s: &str) -> (r: String)
    ensures
        r@ == normal_form(s@),
{
    trim_symbols(trim(s).as_str()).as_str().to_lowercase()
}

pub open spec fn token_times(toks: Seq<TokenView>) -> bool {
    forall|k: int|
        0 <= k < toks.len() ==> -TIME_MAX <= (#[trigger] toks[k]).start <= TIME_MAX && -TIME_MAX
            <= toks[k].end <= TIME_MAX
}

fn tokenize(words: &Vec<Word>) -> (toks: Vec<Token>)
    requires
        words_fit(words@),
    ensures
        token_views(toks@) == tokens_of(words@),
        token_times(token_views(toks@)),
{
    let mut toks: Vec<Token> = Vec::new();
    let mut k: usize = 0;
    while k < words.len()
        invariant
            k <= words@.len(),
            words_fit(words@),
            token_views(toks@) == tokens_of(words@.take(k as int)),
            token_times(token_views(toks@)),
        decreases words@.len() - k,
    {
        assert(words@.take(k + 1).drop_last() == words@.take(k as int));
        assert(words@[k as int].wf());
        let raw = trim(words[k].text.as_str());
        if raw.as_str().unicode_len() > 0 {
            let ghost before = token_views(toks@);
            let t = Token {
                norm: norm(words[k].text.as_str()),
                start: words[k].start,
                end: words[k].end,
                raw,
            };
            toks.push(t);
            assert(token_views(toks@) == before.push(t@));
        }
        k += 1;
    }
    assert(words@.take(k as int) == words@);
    toks
}

// ---------------------------------------------------------------------------
// Stutters: identical adjacent words, keep the last
// ---------------------------------------------------------------------------
/// The last word of the stutter that starts at word `i` and reaches at least
/// to word `j`.
pub open spec fn stutter_end(toks: Seq<TokenView>, i: int, j: int) -> int
    decreases toks.len() - j,
{
    if j + 1 < toks.len() && toks[j + 1].norm == toks[i].norm && toks[j + 1].start - toks[j].end
        < STUTTER_GAP_US {
        stutter_end(toks, i, j + 1)
    } else {
        j
    }
}

pub open spec fn stutter(toks: Seq<TokenView>, i: int, j: int) -> CandidateView {
    CandidateView {
        opts: seq![
            Splice { start: toks[i].start, end: toks[j].start, align: Align::KeepLast },
            Splice { start: toks[i].end, end: toks[j].end, align: Align::KeepLastAlt },
        ],
        kind: Kind::Stutter,
        text: toks[i].norm,
        takes: j - i + 1,
        first_take: (toks[i].start, toks[i].end),
        last_take: (toks[j].start, toks[j].end),
    }
}

pub proof fn lemma_stutter_end(toks: Seq<TokenView>, i: int, j: int)
    requires
        0 <= j < toks.len(),
    ensures
        j <= stutter_end(toks, i, j) < toks.len(),
    decreases toks.len() - j,
{
    if j + 1 < toks.len() && toks[j + 1].norm == toks[i].norm && toks[j + 1].start - toks[j].end
        < STUTTER_GAP_US {
        lemma_stutter_end(toks, i, j + 1);
    }
}

/// The stutters from word `i` on.
pub open spec fn stutters_from(toks: Seq<TokenView>, i: int) -> Seq<CandidateView>
    decreases toks.len() - i,
{
    if i < 0 || i + 1 >= toks.len() {
        Seq::empty()
    } else {
        let j = stutter_end(toks, i, i);
        if j > i {
            proof {
                lemma_stutter_end(toks, i, i);
            }
            seq![stutter(toks, i, j)] + stutters_from(toks, j + 1)
        } else {
            stutters_from(toks, i + 1)
        }
    }
}

/// All the splices of a candidate lie within the times the library handles.
pub open spec fn candidate_fits(c: CandidateView) -> bool {
    &&& c.opts.len() > 0
    &&& forall|k: int|
        0 <= k < c.opts.len() ==> near((#[trigger] c.opts[k]).start as int) && near(
            c.opts[k].end as int,
        )
}

pub open spec fn candidates_fit(cands: Seq<CandidateView>) -> bool {
    forall|k: int| 0 <= k < cands.len() ==> candidate_fits(#[trigger] cands[k])
}

fn push_candidate(cands: &mut Vec<Candidate>, c: Candidate)
    requires
        candidates_fit(candidate_views(old(cands)@)),
        candidate_fits(c@),
    ensures
        candidate_views(final(cands)@) == candidate_views(old(cands)@).push(c@),
        candidates_fit(candidate_views(final(cands)@)),
{
    cands.push(c);
    assert(candidate_views(cands@) == candidate_views(old(cands)@).push(c@));
}

fn find_stutters(toks: &Vec<Token>) -> (cands: Vec<Candidate>)
    requires
        token_times(token_views(toks@)),
    ensures
        candidate_views(cands@) == stutters_from(token_views(toks@), 0),
        candidates_fit(candidate_views(cands@)),
{
    let ghost tv = token_views(toks@);
    let mut cands: Vec<Candidate> = Vec::new();
    let n: usize = toks.len();
    let mut i: usize = 0;
    assert(candidate_views(cands@) + stutters_from(tv, 0) == stutters_from(tv, 0));
    while i < n && n - i > 1
        invariant
            i <= n,
            n == toks@.len(),
            tv == token_views(toks@),
            token_times(tv),
            candidate_views(cands@) + stutters_from(tv, i as int) == stutters_from(tv, 0),
            candidates_fit(candidate_views(cands@)),
        decreases n - i,
    {
        let mut j: usize = i;
        let mut go = true;
        while go
            invariant
                i <= j < n,
                n == toks@.len(),
                tv == token_views(toks@),
                token_times(tv),
                stutter_end(tv, i as int, i as int) == stutter_end(tv, i as int, j as int),
                !go ==> stutter_end(tv, i as int, j as int) == j,
            decreases
                n - j,
                (if go {
                    1int
                } else {
                    0
                }),
        {
            if n - j > 1 {
                assert(tv[j + 1].norm == toks@[j + 1].norm@);
                assert(tv[i as int].norm == toks@[i as int].norm@);
                assert(-TIME_MAX <= tv[j + 1].start <= TIME_MAX);
                assert(-TIME_MAX <= tv[j as int].end <= TIME_MAX);
                if same(toks[j + 1].norm.as_str(), toks[i].norm.as_str()) && toks[j + 1].start
                    - toks[j].end < STUTTER_GAP_US {
                    j += 1;
                } else {
                    go = false;
                }
            } else {
                go = false;
            }
        }
        let ghost before = candidate_views(cands@);
        if j > i {
            let mut opts: Vec<Splice> = Vec::new();
            opts.push(
                Splice { start: toks[i].start, end: toks[j].start, align: Align::KeepLast },
            );
            opts.push(Splice { start: toks[i].end, end: toks[j].end, align: Align::KeepLastAlt });
            let c = Candidate {
                opts,
                kind: Kind::Stutter,
                text: toks[i].norm.clone(),
                takes: j - i + 1,
                first_take: (toks[i].start, toks[i].end),
                last_take: (toks[j].start, toks[j].end),
            };
            proof {
                assert(c@ == stutter(tv, i as int, j as int)) by {
                    assert(c@.opts == stutter(tv, i as int, j as int).opts);
                }
                assert(-TIME_MAX <= tv[i as int].start <= TIME_MAX);
                assert(-TIME_MAX <= tv[j as int].start <= TIME_MAX);
            }
            push_candidate(&mut cands, c);
            assert(candidate_views(cands@) + stutters_from(tv, j + 1) == before + stutters_from(
                tv,
                i as int,
            ));
            i = j + 1;
        } else {
            i += 1;
        }
    }
    assert(candidate_views(cands@) + stutters_from(tv, i as int) == candidate_views(cands@));
    cands
}

// ---------------------------------------------------------------------------
// Repeated phrases: keep only the last take
// ---------------------------------------------------------------------------
/// The `l` words at `i` and those at `j` are the same.
pub open spec fn same_phrase(toks: Seq<TokenView>, l: int, i: int, j: int) -> bool {
    forall|k: int| 0 <= k < l ==> #[trigger] toks[i + k].norm == toks[j + k].norm
}

/// Where the search for further takes of the phrase at `i` stops. The window is
/// anchored at the first take.
pub open spec fn search_end(toks: Seq<TokenView>, l: int, i: int) -> int {
    if i + SEARCH_WORDS < toks.len() + 1 - l {
        i + SEARCH_WORDS
    } else {
        toks.len() + 1 - l
    }
}

/// The further takes of the phrase at `i`, looking from word `j` on. A match
/// that starts too long after `last_end`, where the take before it ended, ends
/// the chain.
pub open spec fn takes_from(toks: Seq<TokenView>, l: int, i: int, j: int, last_end: int) -> Seq<
    int,
>
    decreases search_end(toks, l, i) - j,
{
    if j >= search_end(toks, l, i) {
        Seq::empty()
    } else if !same_phrase(toks, l, i, j) {
        takes_from(toks, l, i, j + 1, last_end)
    } else if toks[j].start - last_end > MAX_TAKE_GAP_US {
        Seq::empty()
    } else {
        seq![j] + takes_from(toks, l, i, j + 1, toks[j + l - 1].end as int)
    }
}

/// Every take of the phrase at `i`, the first included.
pub open spec fn takes(toks: Seq<TokenView>, l: int, i: int) -> Seq<int> {
    seq![i] + takes_from(toks, l, i, i + l, toks[i + l - 1].end as int)
}

pub proof fn lemma_takes_from(toks: Seq<TokenView>, l: int, i: int, j: int, last_end: int)
    ensures
        forall|k: int|
            0 <= k < takes_from(toks, l, i, j, last_end).len() ==> j <= #[trigger] takes_from(
                toks,
                l,
                i,
                j,
                last_end,
            )[k] <= toks.len() - l,
    decreases search_end(toks, l, i) - j,
{
    if j < search_end(toks, l, i) {
        if !same_phrase(toks, l, i, j) {
            lemma_takes_from(toks, l, i, j + 1, last_end);
            let rest = takes_from(toks, l, i, j + 1, last_end);
            assert(takes_from(toks, l, i, j, last_end) == rest);
            assert forall|k: int| 0 <= k < rest.len() implies j <= #[trigger] rest[k] <= toks.len()
                - l by {}
        } else if toks[j].start - last_end > MAX_TAKE_GAP_US {
        } else {
            lemma_takes_from(toks, l, i, j + 1, toks[j + l - 1].end as int);
            let rest = takes_from(toks, l, i, j + 1, toks[j + l - 1].end as int);
            let all = takes_from(toks, l, i, j, last_end);
            assert forall|k: int| 0 <= k < all.len() implies j <= #[trigger] all[k] <= toks.len()
                - l by {
                if k > 0 {
                    assert(all[k] == rest[k - 1]);
                }
            }
        }
    }
}

/// Where the last of several takes is.
pub proof fn lemma_last_take(toks: Seq<TokenView>, l: int, i: int)
    requires
        takes(toks, l, i).len() >= 2,
    ensures
        i + l <= takes(toks, l, i)[1] <= toks.len() - l,
        i + l <= takes(toks, l, i).last() <= toks.len() - l,
{
    let first_end = toks[i + l - 1].end as int;
    lemma_takes_from(toks, l, i, i + l, first_end);
    let rest = takes_from(toks, l, i, i + l, first_end);
    assert(takes(toks, l, i)[1] == rest[0]);
    assert(takes(toks, l, i).last() == rest[rest.len() - 1]);
}

/// A candidate has a splice that overlaps `[s, e)`.
pub open spec fn candidate_overlaps(c: CandidateView, s: int, e: int) -> bool {
    exists|k: int| 0 <= k < c.opts.len() && e > (#[trigger] c.opts[k]).start && s < c.opts[k].end
}

pub open spec fn any_overlap(cands: Seq<CandidateView>, s: int, e: int) -> bool {
    exists|k: int| 0 <= k < cands.len() && candidate_overlaps(#[trigger] cands[k], s, e)
}

/// A repeat, with its four splice alignments in order of preference.
pub open spec fn repeat(
    toks: Seq<TokenView>,
    l: int,
    first: int,
    second: int,
    last: int,
    count: int,
) -> CandidateView {
    CandidateView {
        opts: seq![
            Splice { start: toks[first].start, end: toks[last].start, align: Align::KeepLast },
            Splice {
                start: toks[first + l - 1].end,
                end: toks[last + l - 1].end,
                align: Align::KeepLastAlt,
            },
            Splice { start: toks[first].start, end: toks[second].start, align: Align::DropFirst },
            Splice {
                start: toks[first + l - 1].end,
                end: toks[second + l - 1].end,
                align: Align::DropSecond,
            },
        ],
        kind: Kind::Repeat,
        text: joined(Seq::new(l as nat, |k: int| toks[first + k].norm), seq![' ']),
        takes: count,
        first_take: (toks[first].start, toks[first + l - 1].end),
        last_take: (toks[last].start, toks[last + l - 1].end),
    }
}

/// Adds the repeats of `l` words from word `i` on. One whose span is already
/// claimed by a candidate is passed over.
pub open spec fn repeats_from(toks: Seq<TokenView>, l: int, i: int, cands: Seq<CandidateView>) -> Seq<
    CandidateView,
>
    decreases toks.len() - i,
{
    if l < 1 || i < 0 || i + 2 * l > toks.len() {
        cands
    } else {
        let t = takes(toks, l, i);
        if t.len() >= 2 {
            proof {
                lemma_last_take(toks, l, i);
            }
            let last = t.last();
            let more = if any_overlap(cands, toks[i].start as int, toks[last].start as int) {
                cands
            } else {
                cands.push(repeat(toks, l, i, t[1], last, t.len() as int))
            };
            repeats_from(toks, l, last + l, more)
        } else {
            repeats_from(toks, l, i + 1, cands)
        }
    }
}

/// Adds the repeats of `l` words, then of `l - 1`, down to the shortest
/// phrase: a long phrase claims its span before a part of it can.
pub open spec fn repeats_down(toks: Seq<TokenView>, l: int, cands: Seq<CandidateView>) -> Seq<
    CandidateView,
>
    decreases l,
{
    if l < MIN_PHRASE {
        cands
    } else {
        repeats_down(toks, l - 1, repeats_from(toks, l, 0, cands))
    }
}

fn phrases_match(toks: &Vec<Token>, l: usize, i: usize, j: usize) -> (b: bool)
    requires
        i + l <= toks@.len(),
        j + l <= toks@.len(),
    ensures
        b == same_phrase(token_views(toks@), l as int, i as int, j as int),
{
    let ghost tv = token_views(toks@);
    let n: usize = toks.len();
    let mut k: usize = 0;
    while k < l
        invariant
            k <= l,
            n == toks@.len(),
            i + l <= n,
            j + l <= n,
            tv == token_views(toks@),
            forall|m: int| 0 <= m < k ==> #[trigger] tv[i + m].norm == tv[j + m].norm,
        decreases l - k,
    {
        assert(tv[i + k].norm == toks@[i + k].norm@);
        assert(tv[j + k].norm == toks@[j + k].norm@);
        if !same(toks[i + k].norm.as_str(), toks[j + k].norm.as_str()) {
            assert(tv[i as int + k as int].norm != tv[j as int + k as int].norm);
            return false;
        }
        k += 1;
    }
    true
}

/// Indices as mathematical integers.
pub open spec fn indices(v: Seq<usize>) -> Seq<int> {
    Seq::new(v.len(), |k: int| v[k] as int)
}

fn find_takes(toks: &Vec<Token>, l: usize, i: usize) -> (out: Vec<usize>)
    requires
        1 <= l <= 100,
        i + 2 * l <= toks@.len(),
        token_times(token_views(toks@)),
    ensures
        indices(out@) == takes(token_views(toks@), l as int, i as int),
{
    let ghost tv = token_views(toks@);
    let n: usize = toks.len();
    let hi: usize = if n - l - i >= SEARCH_WORDS {
        i + SEARCH_WORDS
    } else {
        n - l + 1
    };
    let mut out: Vec<usize> = Vec::new();
    out.push(i);
    let mut last_end: i64 = toks[i + l - 1].end;
    assert(tv[i + l - 1].end == last_end);
    assert(-TIME_MAX <= tv[i + l - 1].end <= TIME_MAX);
    let mut j: usize = i + l;
    let ghost all = takes(tv, l as int, i as int);
    assert(indices(out@) + takes_from(tv, l as int, i as int, j as int, last_end as int) == all);
    while j < hi
        invariant_except_break
            i + l <= j,
            1 <= l <= 100,
            n == toks@.len(),
            i + 2 * l <= n,
            hi == search_end(tv, l as int, i as int),
            hi <= n + 1 - l,
            tv == token_views(toks@),
            token_times(tv),
            -TIME_MAX <= last_end <= TIME_MAX,
            indices(out@) + takes_from(tv, l as int, i as int, j as int, last_end as int) == all,
        ensures
            indices(out@) == all,
        decreases hi - j,
    {
        let ghost before = indices(out@);
        if phrases_match(toks, l, i, j) {
            assert(tv[j as int].start == toks@[j as int].start);
            assert(-TIME_MAX <= tv[j as int].start <= TIME_MAX);
            if toks[j].start - last_end > MAX_TAKE_GAP_US {
                assert(takes_from(tv, l as int, i as int, j as int, last_end as int)
                    =~= Seq::empty());
                assert(indices(out@) =~= all);
                break;
            }
            out.push(j);
            let ghost rest = takes_from(
                tv,
                l as int,
                i as int,
                j + 1,
                tv[j + l - 1].end as int,
            );
            last_end = toks[j + l - 1].end;
            assert(tv[j + l - 1].end == last_end);
            assert(-TIME_MAX <= tv[j + l - 1].end <= TIME_MAX);
            assert(indices(out@) =~= before.push(j as int));
            assert(before + (seq![j as int] + rest) =~= before.push(j as int) + rest);
        }
        j += 1;
        assert(j >= hi ==> indices(out@) + takes_from(
            tv,
            l as int,
            i as int,
            j as int,
            last_end as int,
        ) =~= indices(out@));
    }
    out
}

fn overlaps_any(cands: &Vec<Candidate>, s: i64, e: i64) -> (b: bool)
    ensures
        b == any_overlap(candidate_views(cands@), s as int, e as int),
{
    let ghost cv = candidate_views(cands@);
    let mut c: usize = 0;
    while c < cands.len()
        invariant
            c <= cands@.len(),
            cv == candidate_views(cands@),
            forall|m: int|
                0 <= m < c ==> !candidate_overlaps(#[trigger] cv[m], s as int, e as int),
        decreases cands@.len() - c,
    {
        let opts = &cands[c].opts;
        let mut k: usize = 0;
        while k < opts.len()
            invariant
                k <= opts@.len(),
                c < cands@.len(),
                opts@ == cands@[c as int].opts@,
                cv == candidate_views(cands@),
                forall|m: int|
                    0 <= m < k ==> !(e > (#[trigger] opts@[m]).start && s < opts@[m].end),
            decreases opts@.len() - k,
        {
            if e > opts[k].start && s < opts[k].end {
                assert(cv[c as int].opts[k as int] == opts@[k as int]);
                assert(candidate_overlaps(cv[c as int], s as int, e as int));
                return true;
            }
            k += 1;
        }
        c += 1;
    }
    false
}

fn make_repeat(toks: &Vec<Token>, l: usize, t: &Vec<usize>) -> (c: Candidate)
    requires
        1 <= l <= 100,
        t@.len() >= 2,
        forall|k: int| 0 <= k < t@.len() ==> (#[trigger] t@[k]) + l <= toks@.len(),
        token_times(token_views(toks@)),
    ensures
        c@ == repeat(
            token_views(toks@),
            l as int,
            t@[0] as int,
            t@[1] as int,
            t@.last() as int,
            t@.len() as int,
        ),
        candidate_fits(c@),
{
    let ghost tv = token_views(toks@);
    let total: usize = toks.len();
    let first: usize = t[0];
    let second: usize = t[1];
    let count: usize = t.len();
    let last: usize = t[count - 1];
    let mut phrase: Vec<String> = Vec::new();
    let mut k: usize = 0;
    while k < l
        invariant
            k <= l,
            first + l <= toks@.len(),
            total == toks@.len(),
            tv == token_views(toks@),
            views(phrase@) == Seq::new(k as nat, |m: int| tv[first + m].norm),
        decreases l - k,
    {
        let ghost before = views(phrase@);
        let w = toks[first + k].norm.clone();
        assert(w@ == tv[first + k].norm);
        phrase.push(w);
        assert(views(phrase@) =~= before.push(w@));
        k += 1;
        assert(views(phrase@) =~= Seq::new(k as nat, |m: int| tv[first + m].norm));
    }
    let text = join(&phrase, " ");
    proof {
        reveal_strlit(" ");
        assert(" "@ =~= seq![' ']);
    }
    let mut opts: Vec<Splice> = Vec::new();
    opts.push(Splice { start: toks[first].start, end: toks[last].start, align: Align::KeepLast });
    opts.push(
        Splice {
            start: toks[first + l - 1].end,
            end: toks[last + l - 1].end,
            align: Align::KeepLastAlt,
        },
    );
    opts.push(Splice { start: toks[first].start, end: toks[second].start, align: Align::DropFirst });
    opts.push(
        Splice {
            start: toks[first + l - 1].end,
            end: toks[second + l - 1].end,
            align: Align::DropSecond,
        },
    );
    let c = Candidate {
        opts,
        kind: Kind::Repeat,
        text,
        takes: count,
        first_take: (toks[first].start, toks[first + l - 1].end),
        last_take: (toks[last].start, toks[last + l - 1].end),
    };
    proof {
        let r = repeat(tv, l as int, first as int, second as int, last as int, count as int);
        assert(c@.opts =~= r.opts);
        assert(c@.text == r.text);
        assert(c@ == r);
        assert(-TIME_MAX <= tv[first as int].start <= TIME_MAX);
        assert(-TIME_MAX <= tv[second as int].start <= TIME_MAX);
        assert(-TIME_MAX <= tv[last as int].start <= TIME_MAX);
        assert(-TIME_MAX <= tv[first + l - 1].end <= TIME_MAX);
        assert(-TIME_MAX <= tv[second + l - 1].end <= TIME_MAX);
        assert(-TIME_MAX <= tv[last + l - 1].end <= TIME_MAX);
    }
    c
}

fn find_repeats(toks: &Vec<Token>, l: usize, cands: &mut Vec<Candidate>)
    requires
        1 <= l <= 100,
        token_times(token_views(toks@)),
        candidates_fit(candidate_views(old(cands)@)),
    ensures
        candidate_views(final(cands)@) == repeats_from(
            token_views(toks@),
            l as int,
            0,
            candidate_views(old(cands)@),
        ),
        candidates_fit(candidate_views(final(cands)@)),
{
    let ghost tv = token_views(toks@);
    let ghost goal = repeats_from(tv, l as int, 0, candidate_views(cands@));
    let n: usize = toks.len();
    let mut i: usize = 0;
    while i <= n && n - i >= 2 * l
        invariant
            i <= n,
            1 <= l <= 100,
            n == toks@.len(),
            tv == token_views(toks@),
            token_times(tv),
            repeats_from(tv, l as int, i as int, candidate_views(cands@)) == goal,
            candidates_fit(candidate_views(cands@)),
        decreases n - i,
    {
        let t = find_takes(toks, l, i);
        let ghost tk = takes(tv, l as int, i as int);
        assert(t@.len() == tk.len());
        if t.len() >= 2 {
            let count: usize = t.len();
            let last: usize = t[count - 1];
            proof {
                lemma_last_take(tv, l as int, i as int);
                assert(tk[0] == i && indices(t@)[0] == t@[0]);
                assert(indices(t@)[1] == t@[1]);
                assert(tk.last() == indices(t@)[count - 1]);
                assert forall|k: int| 0 <= k < t@.len() implies (#[trigger] t@[k]) + l
                    <= toks@.len() by {
                    assert(indices(t@)[k] == t@[k]);
                    lemma_takes_from(
                        tv,
                        l as int,
                        i as int,
                        i + l,
                        tv[i + l - 1].end as int,
                    );
                    if k > 0 {
                        assert(tk[k] == takes_from(
                            tv,
                            l as int,
                            i as int,
                            i + l,
                            tv[i + l - 1].end as int,
                        )[k - 1]);
                    }
                }
                assert(tv[i as int].start == toks@[i as int].start);
                assert(tv[last as int].start == toks@[last as int].start);
            }
            if !overlaps_any(cands, toks[i].start, toks[last].start) {
                let c = make_repeat(toks, l, &t);
                push_candidate(cands, c);
            }
            i = last + l;
        } else {
            i += 1;
        }
    }
}

// ---------------------------------------------------------------------------
// Detachable fillers
// ---------------------------------------------------------------------------
/// Discourse markers that open a sentence and can go.
pub open spec fn is_filler(w: Seq<char>) -> bool {
    ||| w == "so"@
    ||| w == "okay"@
    ||| w == "now"@
    ||| w == "ok"@
    ||| w == "also"@
    ||| w == "then"@
    ||| w == "and"@
}

fn filler_word(w: &str) -> (b: bool)
    ensures
        b == is_filler(w@),
{
    same(w, "so") || same(w, "okay") || same(w, "now") || same(w, "ok") || same(w, "also") || same(
        w,
        "then",
    ) || same(w, "and")
}

/// A filler that stands apart: silence before it tells a discarded opener from
/// a real conjunction.
pub open spec fn is_detachable(toks: Seq<TokenView>, energy: Seq<i64>, i: int) -> bool {
    &&& is_filler(toks[i].norm)
    &&& quiet_before(toks[i].start as int, energy) >= FILLER_GAP_US
    &&& toks[i].end - toks[i].start <= FILLER_MAX_US
}

/// The span of a filler is not the word: it takes some of the pause after it,
/// and leaves some of the gap before it and before the next word.
pub open spec fn filler(toks: Seq<TokenView>, energy: Seq<i64>, i: int) -> CandidateView {
    let from_gap = speech_end(toks[i].start as int, energy) + KEEP_GAP_US;
    let from_word = toks[i].start - FILLER_LEAD_US;
    let to_next = toks[i + 1].start - FILLER_STOP_US;
    let to_tail = toks[i].end + FILLER_TAIL_US;
    CandidateView {
        opts: seq![
            Splice {
                start: (if from_gap > from_word {
                    from_gap
                } else {
                    from_word
                }) as i64,
                end: (if to_next < to_tail {
                    to_next
                } else {
                    to_tail
                }) as i64,
                align: Align::Span,
            },
        ],
        kind: Kind::Filler,
        text: toks[i].raw,
        takes: 1,
        first_take: (toks[i].start, toks[i].end),
        last_take: (toks[i].start, toks[i].end),
    }
}

/// Adds the detachable fillers from word `i` on. The first and the last word
/// never count.
pub open spec fn fillers_from(
    toks: Seq<TokenView>,
    energy: Seq<i64>,
    i: int,
    cands: Seq<CandidateView>,
) -> Seq<CandidateView>
    decreases toks.len() - i,
{
    if i + 1 >= toks.len() {
        cands
    } else {
        fillers_from(
            toks,
            energy,
            i + 1,
            if is_detachable(toks, energy, i) {
                cands.push(filler(toks, energy, i))
            } else {
                cands
            },
        )
    }
}

fn make_filler(toks: &Vec<Token>, energy: &Vec<i64>, i: usize) -> (c: Candidate)
    requires
        i + 1 < toks@.len(),
        token_times(token_views(toks@)),
        energy_fits(energy@),
    ensures
        c@ == filler(token_views(toks@), energy@, i as int),
        candidate_fits(c@),
{
    let ghost tv = token_views(toks@);
    let total: usize = toks.len();
    assert(i + 1 < total);
    let s: i64 = toks[i].start;
    let e: i64 = toks[i].end;
    let next: i64 = toks[i + 1].start;
    proof {
        assert(-TIME_MAX <= tv[i as int].start <= TIME_MAX);
        assert(-TIME_MAX <= tv[i as int].end <= TIME_MAX);
        assert(-TIME_MAX <= tv[i + 1].start <= TIME_MAX);
    }
    let from_gap: i64 = speech_end_before(s, energy) + KEEP_GAP_US;
    let from_word: i64 = s - FILLER_LEAD_US;
    let to_next: i64 = next - FILLER_STOP_US;
    let to_tail: i64 = e + FILLER_TAIL_US;
    let mut opts: Vec<Splice> = Vec::new();
    opts.push(
        Splice {
            start: if from_gap > from_word {
                from_gap
            } else {
                from_word
            },
            end: if to_next < to_tail {
                to_next
            } else {
                to_tail
            },
            align: Align::Span,
        },
    );
    let c = Candidate {
        opts,
        kind: Kind::Filler,
        text: toks[i].raw.clone(),
        takes: 1,
        first_take: (s, e),
        last_take: (s, e),
    };
    proof {
        let f = filler(tv, energy@, i as int);
        assert(c@.opts =~= f.opts);
        assert(c@ == f);
    }
    c
}

fn find_fillers(toks: &Vec<Token>, energy: &Vec<i64>, cands: &mut Vec<Candidate>)
    requires
        token_times(token_views(toks@)),
        energy_fits(energy@),
        candidates_fit(candidate_views(old(cands)@)),
    ensures
        candidate_views(final(cands)@) == fillers_from(
            token_views(toks@),
            energy@,
            1,
            candidate_views(old(cands)@),
        ),
        candidates_fit(candidate_views(final(cands)@)),
{
    let ghost tv = token_views(toks@);
    let ghost goal = fillers_from(tv, energy@, 1, candidate_views(cands@));
    let n: usize = toks.len();
    let mut i: usize = 1;
    while i < n && n - i > 1
        invariant
            1 <= i,
            n == toks@.len(),
            tv == token_views(toks@),
            token_times(tv),
            energy_fits(energy@),
            fillers_from(tv, energy@, i as int, candidate_views(cands@)) == goal,
            candidates_fit(candidate_views(cands@)),
        decreases n - i,
    {
        let s: i64 = toks[i].start;
        let e: i64 = toks[i].end;
        proof {
            assert(tv[i as int].norm == toks@[i as int].norm@);
            assert(-TIME_MAX <= tv[i as int].start <= TIME_MAX);
            assert(-TIME_MAX <= tv[i as int].end <= TIME_MAX);
        }
        if filler_word(toks[i].norm.as_str()) && quiet_before_us(s, energy) >= FILLER_GAP_US && e
            - s <= FILLER_MAX_US {
            let c = make_filler(toks, energy, i);
            push_candidate(cands, c);
        }
        i += 1;
    }
}

// ---------------------------------------------------------------------------
// Proposals
// ---------------------------------------------------------------------------
/// Everything worth trying to cut: stutters, then repeats, then fillers.
pub open spec fn proposed(words: Seq<Word>, energy_edge: Seq<i64>) -> Seq<CandidateView> {
    let toks = tokens_of(words);
    fillers_from(
        toks,
        energy_edge,
        1,
        repeats_down(toks, MAX_PHRASE as int, stutters_from(toks, 0)),
    )
}

/// Proposes cuts from the word list.
pub fn propose(words: &Vec<Word>, energy_edge: &Vec<i64>) -> (cands: Vec<Candidate>)
    requires
        words_fit(words@),
        energy_fits(energy_edge@),
    ensures
        candidate_views(cands@) == proposed(words@, energy_edge@),
        candidates_fit(candidate_views(cands@)),
{
    let toks = tokenize(words);
    let ghost tv = token_views(toks@);
    let mut cands = find_stutters(&toks);
    let ghost goal = repeats_down(tv, MAX_PHRASE as int, candidate_views(cands@));
    let mut l: usize = MAX_PHRASE;
    while l >= MIN_PHRASE
        invariant
            l <= MAX_PHRASE,
            l >= MIN_PHRASE - 1,
            tv == token_views(toks@),
            token_times(tv),
            repeats_down(tv, l as int, candidate_views(cands@)) == goal,
            candidates_fit(candidate_views(cands@)),
        decreases l,
    {
        find_repeats(&toks, l, &mut cands);
        l -= 1;
    }
    find_fillers(&toks, energy_edge, &mut cands);
    cands
}

// ---------------------------------------------------------------------------
// Snap and validate
// ---------------------------------------------------------------------------
/// Why a candidate was thrown out.
#[derive(Clone, Copy, Debug, PartialEq, Eq, Structural)]
pub enum Why {
    /// The two takes do not sound alike.
    Similarity { sim: i64 },
    /// Too short or too long once snapped.
    Duration { us: i64 },
    /// A splice point is too loud.
    Splice { level: i64 },
    /// The quiet around a splice point does not last.
    QuietRun { start_us: i64, end_us: i64 },
    /// Too close to the cut before it.
    Overlap,
    /// Not wholly inside a stretch that plays as recorded.
    NotNormal,
    /// There was nothing to try.
    NoAlignment,
}

/// An accepted cut.
#[derive(Debug)]
pub struct Cut {
    pub start: i64,
    pub end: i64,
    pub kind: Kind,
    pub text: String,
    /// Spectral correlation between the two takes, in millionths; one where it
    /// does not apply.
    pub sim: i64,
    /// How many takes of the phrase the chain collected.
    pub takes: usize,
    /// Which splice alignment won.
    pub align: Align,
}

#[verifier::ext_equal]
pub struct CutView {
    pub start: i64,
    pub end: i64,
    pub kind: Kind,
    pub text: Seq<char>,
    pub sim: i64,
    pub takes: int,
    pub align: Align,
}

impl View for Cut {
    type V = CutView;

    open spec fn view(&self) -> CutView {
        CutView {
            start: self.start,
            end: self.end,
            kind: self.kind,
            text: self.text@,
            sim: self.sim,
            takes: self.takes as int,
            align: self.align,
        }
    }
}

pub open spec fn cut_views(cuts: Seq<Cut>) -> Seq<CutView> {
    Seq::new(cuts.len(), |k: int| cuts[k]@)
}

/// A candidate that was thrown out, kept so the run can report it.
#[derive(Clone, Copy, Debug, PartialEq, Eq, Structural)]
pub struct Rejected {
    pub start: i64,
    pub kind: Kind,
    pub why: Why,
}

/// A stretch that plays as recorded holds all of `[s, e]`.
pub open spec fn inside_normal(segs: Seq<Segment>, s: int, e: int) -> bool {
    exists|k: int|
        0 <= k < segs.len() && (#[trigger] segs[k]).speed.is_normal() && segs[k].src_start <= s && e
            <= segs[k].src_end
}

/// A cut may only land wholly inside a segment that plays as recorded.
pub fn inside_1x(segs: &Vec<Segment>, s: i64, e: i64) -> (b: bool)
    ensures
        b == inside_normal(segs@, s as int, e as int),
{
    let mut k: usize = 0;
    while k < segs.len()
        invariant
            k <= segs@.len(),
            forall|m: int|
                0 <= m < k ==> !((#[trigger] segs@[m]).speed.is_normal() && segs@[m].src_start <= s
                    && e <= segs@[m].src_end),
        decreases segs@.len() - k,
    {
        if segs[k].speed.normal_speed() && segs[k].src_start <= s && e <= segs[k].src_end {
            return true;
        }
        k += 1;
    }
    false
}

pub open spec fn larger(a: int, b: int) -> int {
    if a > b {
        a
    } else {
        b
    }
}

/// Tries one alignment: duration, then splice level, then the quiet-run guard,
/// then spacing, then the segment. Gives the snapped cut or the reason.
pub open spec fn try_splice(
    o: Splice,
    energy: Seq<i64>,
    segs: Seq<Segment>,
    last_end: Option<i64>,
) -> Result<(i64, i64), Why> {
    let (s, qs) = snapped(o.start as int, energy);
    let (e, qe) = snapped(o.end as int, energy);
    let rs = quiet_run(s, energy);
    let re = quiet_run(e, energy);
    if !(MIN_CUT_US <= e - s <= MAX_CUT_US) {
        Err(Why::Duration { us: (e - s) as i64 })
    } else if larger(qs, qe) > QUIET_DB {
        Err(Why::Splice { level: larger(qs, qe) as i64 })
    } else if rs < QUIET_RUN_US || re < QUIET_RUN_US {
        Err(Why::QuietRun { start_us: rs as i64, end_us: re as i64 })
    } else if last_end is Some && s < last_end.unwrap() + CUT_SPACING_US {
        Err(Why::Overlap)
    } else if !inside_normal(segs, s, e) {
        Err(Why::NotNormal)
    } else {
        Ok((s as i64, e as i64))
    }
}

/// Tries the alignments from the `k`-th on and takes the first that passes; if
/// none does, gives the last reason.
pub open spec fn place_from(
    opts: Seq<Splice>,
    k: int,
    why: Why,
    energy: Seq<i64>,
    segs: Seq<Segment>,
    last_end: Option<i64>,
) -> Result<Splice, Why>
    decreases opts.len() - k,
{
    if k >= opts.len() {
        Err(why)
    } else {
        match try_splice(opts[k], energy, segs, last_end) {
            Ok(r) => Ok(Splice { start: r.0, end: r.1, align: opts[k].align }),
            Err(w) => place_from(opts, k + 1, w, energy, segs, last_end),
        }
    }
}

/// What has been decided so far.
#[verifier::ext_equal]
pub struct Verdicts {
    pub accepted: Seq<CutView>,
    pub rejected: Seq<Rejected>,
    pub clipped: int,
}

/// Decides one candidate, given those before it.
pub open spec fn decide_one(
    v: Verdicts,
    c: CandidateView,
    sim: i64,
    energy: Seq<i64>,
    segs: Seq<Segment>,
) -> Verdicts {
    let last_end = if v.accepted.len() > 0 {
        Some(v.accepted.last().end)
    } else {
        None
    };
    let at = c.opts[0].start;
    if c.kind == Kind::Repeat && sim < SIM_MIN {
        Verdicts {
            rejected: v.rejected.push(
                Rejected { start: at, kind: c.kind, why: Why::Similarity { sim } },
            ),
            ..v
        }
    } else {
        match place_from(c.opts, 0, Why::NoAlignment, energy, segs, last_end) {
            Ok(p) => Verdicts {
                accepted: v.accepted.push(
                    CutView {
                        start: p.start,
                        end: p.end,
                        kind: c.kind,
                        text: c.text,
                        sim,
                        takes: c.takes,
                        align: p.align,
                    },
                ),
                ..v
            },
            Err(why) => Verdicts {
                rejected: v.rejected.push(Rejected { start: at, kind: c.kind, why }),
                clipped: v.clipped + (if c.kind == Kind::Repeat {
                    1int
                } else {
                    0
                }),
                ..v
            },
        }
    }
}

/// The keys by which candidates are taken: where each would start.
pub open spec fn start_keys(cands: Seq<CandidateView>) -> Seq<i64> {
    Seq::new(cands.len(), |k: int| cands[k].opts[0].start)
}

/// Decides the first `n` candidates in the given order.
pub open spec fn decide_first(
    cands: Seq<CandidateView>,
    sims: Seq<i64>,
    order: Seq<usize>,
    n: int,
    energy: Seq<i64>,
    segs: Seq<Segment>,
) -> Verdicts
    decreases n,
{
    if n <= 0 {
        Verdicts { accepted: Seq::empty(), rejected: Seq::empty(), clipped: 0 }
    } else {
        decide_one(
            decide_first(cands, sims, order, n - 1, energy, segs),
            cands[order[n - 1] as int],
            sims[order[n - 1] as int],
            energy,
            segs,
        )
    }
}

/// Decides every candidate, in order of where each would start.
pub open spec fn decide_all(
    cands: Seq<CandidateView>,
    sims: Seq<i64>,
    energy: Seq<i64>,
    segs: Seq<Segment>,
) -> Verdicts {
    decide_first(cands, sims, order_of(start_keys(cands)), cands.len() as int, energy, segs)
}

/// The cut meets every guard.
pub open spec fn is_safe(c: CutView, energy: Seq<i64>, segs: Seq<Segment>) -> bool {
    &&& MIN_CUT_US <= c.end - c.start <= MAX_CUT_US
    &&& quiet_run(c.start as int, energy) >= QUIET_RUN_US
    &&& quiet_run(c.end as int, energy) >= QUIET_RUN_US
    &&& inside_normal(segs, c.start as int, c.end as int)
    &&& c.kind == Kind::Repeat ==> c.sim >= SIM_MIN
}

/// Every cut is safe, and each keeps its distance from the next.
pub open spec fn all_safe(cuts: Seq<CutView>, energy: Seq<i64>, segs: Seq<Segment>) -> bool {
    &&& forall|k: int| 0 <= k < cuts.len() ==> is_safe(#[trigger] cuts[k], energy, segs)
    &&& forall|k: int, l: int|
        0 <= k < l < cuts.len() ==> (#[trigger] cuts[k]).end + CUT_SPACING_US <= (
        #[trigger] cuts[l]).start
}

proof fn lemma_place(
    opts: Seq<Splice>,
    k: int,
    why: Why,
    energy: Seq<i64>,
    segs: Seq<Segment>,
    last_end: Option<i64>,
)
    requires
        energy_fits(energy),
        forall|j: int|
            0 <= j < opts.len() ==> near((#[trigger] opts[j]).start as int) && near(
                opts[j].end as int,
            ),
        0 <= k,
    ensures
        place_from(opts, k, why, energy, segs, last_end) matches Ok(p) ==> {
            &&& MIN_CUT_US <= p.end - p.start <= MAX_CUT_US
            &&& quiet_run(p.start as int, energy) >= QUIET_RUN_US
            &&& quiet_run(p.end as int, energy) >= QUIET_RUN_US
            &&& inside_normal(segs, p.start as int, p.end as int)
            &&& last_end matches Some(e) ==> e + CUT_SPACING_US <= p.start
        },
    decreases opts.len() - k,
{
    if k < opts.len() {
        let o = opts[k];
        lemma_snapped_near(o.start as int, energy);
        lemma_snapped_near(o.end as int, energy);
        match try_splice(o, energy, segs, last_end) {
            Ok(r) => {},
            Err(w) => {
                lemma_place(opts, k + 1, w, energy, segs, last_end);
            },
        }
    }
}

/// The guards hold whatever is proposed and however alike the takes sound:
/// every accepted cut is long enough and not too long, has enough quiet at both
/// ends, lies inside a stretch that plays as recorded, and keeps its distance
/// from the other cuts.
pub proof fn law_accepted_cuts_are_safe(
    cands: Seq<CandidateView>,
    sims: Seq<i64>,
    order: Seq<usize>,
    n: int,
    energy: Seq<i64>,
    segs: Seq<Segment>,
)
    requires
        energy_fits(energy),
        candidates_fit(cands),
        n <= order.len(),
        forall|k: int| 0 <= k < order.len() ==> 0 <= #[trigger] order[k] < cands.len(),
    ensures
        all_safe(decide_first(cands, sims, order, n, energy, segs).accepted, energy, segs),
    decreases n,
{
    if n > 0 {
        law_accepted_cuts_are_safe(cands, sims, order, n - 1, energy, segs);
        let v = decide_first(cands, sims, order, n - 1, energy, segs);
        let c = cands[order[n - 1] as int];
        assert(candidate_fits(c));
        let last_end = if v.accepted.len() > 0 {
            Some(v.accepted.last().end)
        } else {
            None
        };
        lemma_place(c.opts, 0, Why::NoAlignment, energy, segs, last_end);
        let w = decide_first(cands, sims, order, n, energy, segs);
        if w.accepted.len() > v.accepted.len() {
            let m = v.accepted.len() as int;
            assert forall|k: int, l: int| 0 <= k < l < w.accepted.len() implies (
            #[trigger] w.accepted[k]).end + CUT_SPACING_US <= (#[trigger] w.accepted[l]).start by {
                if l == m {
                    assert(is_safe(v.accepted[m - 1], energy, segs));
                    if k < m - 1 {
                        assert(v.accepted[k].end + CUT_SPACING_US <= v.accepted[m - 1].start);
                    }
                }
            }
        }
    }
}

proof fn lemma_snapped_near(t: int, energy: Seq<i64>)
    requires
        near(t),
        energy_fits(energy),
    ensures
        near(snapped(t, energy).0),
{
    let (a, b) = crate::quiet::snap_window(t, energy);
    if a < b {
        crate::quiet::lemma_quietest(energy, a, b);
    }
}

fn try_one(o: Splice, energy: &Vec<i64>, segs: &Vec<Segment>, last_end: Option<i64>) -> (r: Result<
    (i64, i64),
    Why,
>)
    requires
        near(o.start as int),
        near(o.end as int),
        energy_fits(energy@),
        last_end matches Some(e) ==> near(e as int),
    ensures
        r == try_splice(o, energy@, segs@, last_end),
        r matches Ok(p) ==> near(p.0 as int) && near(p.1 as int),
{
    let (s, qs) = snap_in(o.start, energy);
    let (e, qe) = snap_in(o.end, energy);
    let dur: i64 = e - s;
    if !(MIN_CUT_US <= dur && dur <= MAX_CUT_US) {
        return Err(Why::Duration { us: dur });
    }
    let level: i64 = if qs > qe {
        qs
    } else {
        qe
    };
    if level > QUIET_DB {
        return Err(Why::Splice { level });
    }
    let rs: i64 = quiet_run_us(s, energy);
    let re: i64 = quiet_run_us(e, energy);
    if rs < QUIET_RUN_US || re < QUIET_RUN_US {
        return Err(Why::QuietRun { start_us: rs, end_us: re });
    }
    match last_end {
        Some(end) => {
            if s < end + CUT_SPACING_US {
                return Err(Why::Overlap);
            }
        },
        None => {},
    }
    if !inside_1x(segs, s, e) {
        return Err(Why::NotNormal);
    }
    Ok((s, e))
}

fn place(opts: &Vec<Splice>, energy: &Vec<i64>, segs: &Vec<Segment>, last_end: Option<i64>) -> (r:
    Result<Splice, Why>)
    requires
        energy_fits(energy@),
        forall|j: int|
            0 <= j < opts@.len() ==> near((#[trigger] opts@[j]).start as int) && near(
                opts@[j].end as int,
            ),
        last_end matches Some(e) ==> near(e as int),
    ensures
        r == place_from(opts@, 0, Why::NoAlignment, energy@, segs@, last_end),
        r matches Ok(p) ==> near(p.start as int) && near(p.end as int),
{
    let mut why = Why::NoAlignment;
    let mut k: usize = 0;
    while k < opts.len()
        invariant
            k <= opts@.len(),
            energy_fits(energy@),
            forall|j: int|
                0 <= j < opts@.len() ==> near((#[trigger] opts@[j]).start as int) && near(
                    opts@[j].end as int,
                ),
            last_end matches Some(e) ==> near(e as int),
            place_from(opts@, k as int, why, energy@, segs@, last_end) == place_from(
                opts@,
                0,
                Why::NoAlignment,
                energy@,
                segs@,
                last_end,
            ),
        decreases opts@.len() - k,
    {
        match try_one(opts[k], energy, segs, last_end) {
            Ok((s, e)) => {
                return Ok(Splice { start: s, end: e, align: opts[k].align });
            },
            Err(w) => {
                why = w;
            },
        }
        k += 1;
    }
    Err(why)
}

/// Snaps and validates every candidate, in order of where each would start.
/// `sims` says how alike the takes of each candidate sound. Returns the
/// accepted cuts, the rejected candidates, and how many repeats were found that
/// no alignment could splice.
pub fn check_candidates(
    cands: &Vec<Candidate>,
    sims: &Vec<i64>,
    energy: &Vec<i64>,
    segs: &Vec<Segment>,
) -> (r: (Vec<Cut>, Vec<Rejected>, usize))
    requires
        candidates_fit(candidate_views(cands@)),
        sims@.len() == cands@.len(),
        energy_fits(energy@),
    ensures
        ({
            let v = decide_all(candidate_views(cands@), sims@, energy@, segs@);
            &&& cut_views(r.0@) == v.accepted
            &&& r.1@ == v.rejected
            &&& r.2 == v.clipped
        }),
        all_safe(cut_views(r.0@), energy@, segs@),
{
    let ghost cv = candidate_views(cands@);
    let mut keys: Vec<i64> = Vec::new();
    let mut i: usize = 0;
    while i < cands.len()
        invariant
            i <= cands@.len(),
            cv == candidate_views(cands@),
            candidates_fit(cv),
            keys@ == start_keys(cv.take(i as int)),
        decreases cands@.len() - i,
    {
        assert(candidate_fits(cv[i as int]));
        assert(cv[i as int].opts == cands@[i as int].opts@);
        keys.push(cands[i].opts[0].start);
        i += 1;
        assert(keys@ =~= start_keys(cv.take(i as int)));
    }
    assert(cv.take(i as int) =~= cv);
    let order = stable_order(&keys);
    let ghost ord = order@;

    let mut accepted: Vec<Cut> = Vec::new();
    let mut rejected: Vec<Rejected> = Vec::new();
    let mut clipped: usize = 0;
    let mut k: usize = 0;
    while k < order.len()
        invariant
            k <= order@.len(),
            ord == order@,
            order@.len() == cands@.len(),
            cv == candidate_views(cands@),
            candidates_fit(cv),
            sims@.len() == cands@.len(),
            energy_fits(energy@),
            forall|j: int| 0 <= j < order@.len() ==> 0 <= #[trigger] order@[j] < cands@.len(),
            clipped <= k,
            ({
                let v = decide_first(cv, sims@, ord, k as int, energy@, segs@);
                &&& cut_views(accepted@) == v.accepted
                &&& rejected@ == v.rejected
                &&& clipped == v.clipped
            }),
            accepted@.len() > 0 ==> near(accepted@.last().end as int),
        decreases order@.len() - k,
    {
        let m: usize = order[k];
        let c = &cands[m];
        let sim: i64 = sims[m];
        assert(candidate_fits(cv[m as int]));
        assert(cv[m as int].opts == c.opts@);
        let at: i64 = c.opts[0].start;
        let na: usize = accepted.len();
        let last_end: Option<i64> = if na > 0 {
            Some(accepted[na - 1].end)
        } else {
            None
        };
        let ghost before = cut_views(accepted@);
        assert(na > 0 ==> before.last().end == accepted@.last().end);
        if c.kind == Kind::Repeat && sim < SIM_MIN {
            rejected.push(Rejected { start: at, kind: c.kind, why: Why::Similarity { sim } });
        } else {
            match place(&c.opts, energy, segs, last_end) {
                Ok(p) => {
                    let cut = Cut {
                        start: p.start,
                        end: p.end,
                        kind: c.kind,
                        text: c.text.clone(),
                        sim,
                        takes: c.takes,
                        align: p.align,
                    };
                    accepted.push(cut);
                    assert(cut_views(accepted@) =~= before.push(cut@));
                },
                Err(why) => {
                    if c.kind == Kind::Repeat {
                        clipped += 1;
                    }
                    rejected.push(Rejected { start: at, kind: c.kind, why });
                },
            }
        }
        k += 1;
    }
    proof {
        law_accepted_cuts_are_safe(cv, sims@, ord, k as int, energy@, segs@);
    }
    (accepted, rejected, clipped)
}

/// How alike two stretches of the recording sound, for each candidate: asked
/// of repeats only, one for anything else.
pub open spec fn sims_answer<F: Fn(i64, i64, i64, i64) -> i64>(
    similarity: F,
    cands: Seq<CandidateView>,
    sims: Seq<i64>,
) -> bool {
    &&& sims.len() == cands.len()
    &&& forall|k: int|
        0 <= k < cands.len() ==> if (#[trigger] cands[k]).kind == Kind::Repeat {
            call_ensures(
                similarity,
                (
                    cands[k].first_take.0,
                    cands[k].first_take.1,
                    cands[k].last_take.0,
                    cands[k].last_take.1,
                ),
                sims[k],
            )
        } else {
            sims[k] == 1_000_000
        }
}

/// Proposes cuts from the word list, then checks every one of them.
/// `similarity` compares two stretches of the recording, given by their start
/// and end. Returns the accepted cuts, the rejected candidates, and how many
/// repeats were found that no alignment could splice.
pub fn find_cuts<F: Fn(i64, i64, i64, i64) -> i64>(
    words: &Vec<Word>,
    similarity: F,
    energy: &Vec<i64>,
    energy_edge: &Vec<i64>,
    segs: &Vec<Segment>,
) -> (r: (Vec<Cut>, Vec<Rejected>, usize))
    requires
        words_fit(words@),
        energy_fits(energy@),
        energy_fits(energy_edge@),
        forall|a: i64, b: i64, c: i64, d: i64| #[trigger]
            call_requires(similarity, (a, b, c, d)),
    ensures
        exists|sims: Seq<i64>|
            #![trigger sims_answer(similarity, proposed(words@, energy_edge@), sims)]
            {
                let v = decide_all(proposed(words@, energy_edge@), sims, energy@, segs@);
                &&& sims_answer(similarity, proposed(words@, energy_edge@), sims)
                &&& cut_views(r.0@) == v.accepted
                &&& r.1@ == v.rejected
                &&& r.2 == v.clipped
            },
        all_safe(cut_views(r.0@), energy@, segs@),
{
    let cands = propose(words, energy_edge);
    let ghost cv = candidate_views(cands@);
    let mut sims: Vec<i64> = Vec::new();
    let mut k: usize = 0;
    while k < cands.len()
        invariant
            k <= cands@.len(),
            cv == candidate_views(cands@),
            forall|a: i64, b: i64, c: i64, d: i64| #[trigger]
                call_requires(similarity, (a, b, c, d)),
            sims_answer(similarity, cv.take(k as int), sims@),
        decreases cands@.len() - k,
    {
        let c = &cands[k];
        let ghost before = sims@;
        assert(cv[k as int].kind == c.kind);
        let s: i64 = if c.kind == Kind::Repeat {
            similarity(c.first_take.0, c.first_take.1, c.last_take.0, c.last_take.1)
        } else {
            1_000_000
        };
        sims.push(s);
        k += 1;
        proof {
            let t = cv.take(k as int);
            assert forall|j: int| 0 <= j < t.len() implies if (#[trigger] t[j]).kind
                == Kind::Repeat {
                call_ensures(
                    similarity,
                    (t[j].first_take.0, t[j].first_take.1, t[j].last_take.0, t[j].last_take.1),
                    sims@[j],
                )
            } else {
                sims@[j] == 1_000_000
            } by {
                if j < k - 1 {
                    assert(cv.take(k - 1)[j] == t[j]);
                    assert(sims@[j] == before[j]);
                }
            }
        }
    }
    assert(cv.take(k as int) =~= cv);
    check_candidates(&cands, &sims, energy, segs)
}

// ---------------------------------------------------------------------------
// What counts as a repeat
// ---------------------------------------------------------------------------
/// The takes are of one phrase, and each follows the one before it closely.
pub open spec fn is_chain(toks: Seq<TokenView>, l: int, t: Seq<int>) -> bool {
    &&& forall|k: int| 0 <= k < t.len() ==> same_phrase(toks, l, t[0], #[trigger] t[k])
    &&& forall|j: int, k: int|
        0 <= j && k == j + 1 && k < t.len() ==> toks[#[trigger] t[k]].start - toks[#[trigger] t[j]
            + l - 1].end <= MAX_TAKE_GAP_US
}

/// Adding the further takes to a chain that ends in a take that ends at
/// `last_end` keeps it a chain.
proof fn lemma_chain(
    toks: Seq<TokenView>,
    l: int,
    i: int,
    j: int,
    last_end: int,
    so_far: Seq<int>,
)
    requires
        so_far.len() > 0,
        so_far[0] == i,
        is_chain(toks, l, so_far),
        toks[so_far.last() + l - 1].end == last_end,
    ensures
        is_chain(toks, l, so_far + takes_from(toks, l, i, j, last_end)),
    decreases search_end(toks, l, i) - j,
{
    let rest = takes_from(toks, l, i, j, last_end);
    if j >= search_end(toks, l, i) {
        assert(so_far + rest =~= so_far);
    } else if !same_phrase(toks, l, i, j) {
        lemma_chain(toks, l, i, j + 1, last_end, so_far);
    } else if toks[j].start - last_end > MAX_TAKE_GAP_US {
        assert(so_far + rest =~= so_far);
    } else {
        let more = so_far.push(j);
        let end = toks[j + l - 1].end as int;
        assert(is_chain(toks, l, more)) by {
            assert forall|k: int| 0 <= k < more.len() implies same_phrase(
                toks,
                l,
                more[0],
                #[trigger] more[k],
            ) by {
                if k < so_far.len() {
                    assert(more[k] == so_far[k]);
                }
            }
            assert forall|a: int, k: int|
                0 <= a && k == a + 1 && k < more.len() implies toks[#[trigger] more[k]].start
                - toks[#[trigger] more[a] + l - 1].end <= MAX_TAKE_GAP_US by {
                assert(more[a] == so_far[a]);
                if k < so_far.len() {
                    assert(more[k] == so_far[k]);
                }
            }
        }
        lemma_chain(toks, l, i, j + 1, end, more);
        assert(more + takes_from(toks, l, i, j + 1, end) =~= so_far + rest);
    }
}

/// The candidate is the repeat of a phrase that is long enough and has at least
/// two takes.
pub open spec fn is_repeat_of(toks: Seq<TokenView>, c: CandidateView, l: int, i: int) -> bool {
    let t = takes(toks, l, i);
    &&& MIN_PHRASE <= l <= MAX_PHRASE
    &&& 0 <= i
    &&& t.len() >= 2
    &&& is_chain(toks, l, t)
    &&& c == repeat(toks, l, i, t[1], t.last(), t.len() as int)
}

/// Every repeat among the candidates repeats a phrase.
spec fn repeats_repeat(toks: Seq<TokenView>, cands: Seq<CandidateView>) -> bool {
    forall|k: int|
        0 <= k < cands.len() && (#[trigger] cands[k]).kind == Kind::Repeat ==> exists|l: int, i: int|
            is_repeat_of(toks, cands[k], l, i)
}

proof fn lemma_repeats_from(toks: Seq<TokenView>, l: int, i: int, cands: Seq<CandidateView>)
    requires
        MIN_PHRASE <= l <= MAX_PHRASE,
        repeats_repeat(toks, cands),
    ensures
        repeats_repeat(toks, repeats_from(toks, l, i, cands)),
    decreases toks.len() - i,
{
    if !(l < 1 || i < 0 || i + 2 * l > toks.len()) {
        let t = takes(toks, l, i);
        if t.len() >= 2 {
            lemma_last_take(toks, l, i);
            let first_end = toks[i + l - 1].end as int;
            assert(is_chain(toks, l, seq![i]));
            lemma_chain(toks, l, i, i + l, first_end, seq![i]);
            let c = repeat(toks, l, i, t[1], t.last(), t.len() as int);
            assert(is_repeat_of(toks, c, l, i));
            let more = if any_overlap(cands, toks[i].start as int, toks[t.last()].start as int) {
                cands
            } else {
                cands.push(c)
            };
            assert(repeats_repeat(toks, more)) by {
                assert forall|k: int|
                    0 <= k < more.len() && (#[trigger] more[k]).kind
                        == Kind::Repeat implies exists|m: int, n: int|
                    is_repeat_of(toks, more[k], m, n) by {
                    if k < cands.len() {
                        assert(more[k] == cands[k]);
                    }
                }
            }
            lemma_repeats_from(toks, l, t.last() + l, more);
        } else {
            lemma_repeats_from(toks, l, i + 1, cands);
        }
    }
}

proof fn lemma_repeats_down(toks: Seq<TokenView>, l: int, cands: Seq<CandidateView>)
    requires
        l <= MAX_PHRASE,
        repeats_repeat(toks, cands),
    ensures
        repeats_repeat(toks, repeats_down(toks, l, cands)),
    decreases l,
{
    if l >= MIN_PHRASE {
        lemma_repeats_from(toks, l, 0, cands);
        lemma_repeats_down(toks, l - 1, repeats_from(toks, l, 0, cands));
    }
}

proof fn lemma_stutters_only(toks: Seq<TokenView>, i: int)
    ensures
        forall|k: int|
            0 <= k < stutters_from(toks, i).len() ==> (#[trigger] stutters_from(toks, i)[k]).kind
                == Kind::Stutter,
    decreases toks.len() - i,
{
    if !(i < 0 || i + 1 >= toks.len()) {
        let j = stutter_end(toks, i, i);
        lemma_stutter_end(toks, i, i);
        if j > i {
            lemma_stutters_only(toks, j + 1);
        } else {
            lemma_stutters_only(toks, i + 1);
        }
    }
}

proof fn lemma_fillers_add_no_repeat(
    toks: Seq<TokenView>,
    energy: Seq<i64>,
    i: int,
    cands: Seq<CandidateView>,
)
    requires
        repeats_repeat(toks, cands),
    ensures
        repeats_repeat(toks, fillers_from(toks, energy, i, cands)),
    decreases toks.len() - i,
{
    if i + 1 < toks.len() {
        let more = if is_detachable(toks, energy, i) {
            cands.push(filler(toks, energy, i))
        } else {
            cands
        };
        assert(repeats_repeat(toks, more)) by {
            assert forall|k: int|
                0 <= k < more.len() && (#[trigger] more[k]).kind == Kind::Repeat implies exists|
                m: int,
                n: int,
            |
                is_repeat_of(toks, more[k], m, n) by {
                if k < cands.len() {
                    assert(more[k] == cands[k]);
                }
            }
        }
        lemma_fillers_add_no_repeat(toks, energy, i + 1, more);
    }
}

/// Nothing is proposed as a repeat that was not said twice: every such
/// candidate stands for at least two takes of one phrase of at least the
/// shortest length, each of which follows closely on the one before.
pub proof fn law_repeats_were_said_twice(words: Seq<Word>, energy_edge: Seq<i64>, k: int) -> (at: (
    int,
    int,
))
    requires
        0 <= k < proposed(words, energy_edge).len(),
        proposed(words, energy_edge)[k].kind == Kind::Repeat,
    ensures
        is_repeat_of(tokens_of(words), proposed(words, energy_edge)[k], at.0, at.1),
{
    let toks = tokens_of(words);
    let st = stutters_from(toks, 0);
    lemma_stutters_only(toks, 0);
    assert(repeats_repeat(toks, st));
    lemma_repeats_down(toks, MAX_PHRASE as int, st);
    let rs = repeats_down(toks, MAX_PHRASE as int, st);
    lemma_fillers_add_no_repeat(toks, energy_edge, 1, rs);
    let c = proposed(words, energy_edge)[k];
    let (l, i) = choose|l: int, i: int| is_repeat_of(toks, c, l, i);
    (l, i)
}

// ---------------------------------------------------------------------------
// Applying the cuts
// ---------------------------------------------------------------------------
/// The cut lies inside the segment.
pub open spec fn cut_inside(g: Segment, c: CutView) -> bool {
    g.src_start <= c.start && c.end <= g.src_end
}

/// What is left of a segment up to the end of the first `n` cuts, and where
/// the next part starts.
pub open spec fn parts_upto(g: Segment, cuts: Seq<CutView>, n: int) -> (Seq<Segment>, i64)
    decreases n,
{
    if n <= 0 {
        (Seq::empty(), g.src_start)
    } else {
        let (parts, cursor) = parts_upto(g, cuts, n - 1);
        let c = cuts[n - 1];
        if !cut_inside(g, c) {
            (parts, cursor)
        } else if c.start > cursor {
            (
                parts.push(
                    Segment {
                        src_start: cursor,
                        src_end: c.start,
                        speed: Speed { num: 1, den: 1 },
                    },
                ),
                c.end,
            )
        } else {
            (parts, c.end)
        }
    }
}

/// What is left of a segment: all of it where it is sped up, otherwise what
/// lies between the cuts.
pub open spec fn parts_of(g: Segment, cuts: Seq<CutView>) -> Seq<Segment> {
    let (parts, cursor) = parts_upto(g, cuts, cuts.len() as int);
    if !g.speed.is_normal() {
        seq![g]
    } else if cursor < g.src_end {
        parts.push(
            Segment { src_start: cursor, src_end: g.src_end, speed: Speed { num: 1, den: 1 } },
        )
    } else {
        parts
    }
}

/// What is left of all the segments.
pub open spec fn after_cuts(segs: Seq<Segment>, cuts: Seq<CutView>) -> Seq<Segment>
    decreases segs.len(),
{
    if segs.len() == 0 {
        Seq::empty()
    } else {
        after_cuts(segs.drop_last(), cuts) + parts_of(segs.last(), cuts)
    }
}

/// Takes the cuts out of the segments that play as recorded. Sped-up segments
/// pass through untouched.
pub fn apply_cuts(segs: Vec<Segment>, cuts: &Vec<Cut>) -> (out: Vec<Segment>)
    ensures
        out@ == after_cuts(segs@, cut_views(cuts@)),
{
    let ghost cv = cut_views(cuts@);
    let mut out: Vec<Segment> = Vec::new();
    let mut k: usize = 0;
    while k < segs.len()
        invariant
            k <= segs@.len(),
            cv == cut_views(cuts@),
            out@ == after_cuts(segs@.take(k as int), cv),
        decreases segs@.len() - k,
    {
        assert(segs@.take(k + 1).drop_last() =~= segs@.take(k as int));
        let g = segs[k];
        let ghost done = out@;
        if !g.speed.normal_speed() {
            out.push(g);
            assert(out@ =~= done + parts_of(g, cv));
        } else {
            let mut cursor: i64 = g.src_start;
            let mut j: usize = 0;
            assert(out@ =~= done + parts_upto(g, cv, 0).0);
            while j < cuts.len()
                invariant
                    j <= cuts@.len(),
                    cv == cut_views(cuts@),
                    cursor == parts_upto(g, cv, j as int).1,
                    out@ == done + parts_upto(g, cv, j as int).0,
                decreases cuts@.len() - j,
            {
                let c = &cuts[j];
                assert(cv[j as int] == c@);
                if g.src_start <= c.start && c.end <= g.src_end {
                    if c.start > cursor {
                        let ghost before = out@;
                        let part = Segment {
                            src_start: cursor,
                            src_end: c.start,
                            speed: Speed::normal(),
                        };
                        out.push(part);
                        assert(out@ =~= done + parts_upto(g, cv, j as int).0.push(part));
                    }
                    cursor = c.end;
                }
                j += 1;
            }
            if cursor < g.src_end {
                let part = Segment { src_start: cursor, src_end: g.src_end, speed: Speed::normal() };
                out.push(part);
                assert(out@ =~= done + parts_upto(g, cv, j as int).0.push(part));
            }
            assert(out@ == done + parts_of(g, cv));
        }
        k += 1;
    }
    assert(segs@.take(k as int) =~= segs@);
    out
}

/// Cuts are in order and do not overlap.
pub open spec fn cuts_ordered(cuts: Seq<CutView>) -> bool {
    &&& forall|k: int| 0 <= k < cuts.len() ==> (#[trigger] cuts[k]).start < cuts[k].end
    &&& forall|k: int, l: int|
        0 <= k < l < cuts.len() ==> (#[trigger] cuts[k]).end <= (#[trigger] cuts[l]).start
}

/// The moment lies in one of the first `n` cuts that are inside the segment.
pub open spec fn in_inner_cut(g: Segment, cuts: Seq<CutView>, n: int, t: int) -> bool {
    exists|k: int|
        0 <= k < n && cut_inside(g, #[trigger] cuts[k]) && cuts[k].start <= t < cuts[k].end
}

proof fn lemma_parts_upto(g: Segment, cuts: Seq<CutView>, n: int, t: int)
    requires
        cuts_ordered(cuts),
        g.src_start <= g.src_end,
        0 <= n <= cuts.len(),
    ensures
        ({
            let (parts, cursor) = parts_upto(g, cuts, n);
            &&& g.src_start <= cursor <= g.src_end
            &&& forall|k: int|
                0 <= k < n && cut_inside(g, #[trigger] cuts[k]) ==> cuts[k].end <= cursor
            &&& cursor == g.src_start || exists|k: int|
                0 <= k < n && (#[trigger] cuts[k]).end == cursor
            &&& plays_as_recorded(parts, t) <==> g.src_start <= t < cursor && !in_inner_cut(
                g,
                cuts,
                n,
                t,
            )
        }),
    decreases n,
{
    if n > 0 {
        lemma_parts_upto(g, cuts, n - 1, t);
        let (parts, cursor) = parts_upto(g, cuts, n - 1);
        let (parts2, cursor2) = parts_upto(g, cuts, n);
        let c = cuts[n - 1];
        if cut_inside(g, c) {
            assert(cursor <= c.start) by {
                if cursor != g.src_start {
                    let k = choose|k: int| 0 <= k < n - 1 && (#[trigger] cuts[k]).end == cursor;
                    assert(cuts[k].end <= cuts[n - 1].start);
                }
            }
            assert(c.start < c.end);
            assert(cursor2 == c.end);
            if in_inner_cut(g, cuts, n - 1, t) {
                let k = choose|k: int|
                    0 <= k < n - 1 && cut_inside(g, #[trigger] cuts[k]) && cuts[k].start <= t
                        < cuts[k].end;
                assert(in_inner_cut(g, cuts, n, t));
            }
            if c.start <= t < c.end {
                assert(cut_inside(g, cuts[n - 1]) && cuts[n - 1].start <= t < cuts[n - 1].end);
                assert(in_inner_cut(g, cuts, n, t));
            }
            if in_inner_cut(g, cuts, n, t) {
                let k = choose|k: int|
                    0 <= k < n && cut_inside(g, #[trigger] cuts[k]) && cuts[k].start <= t
                        < cuts[k].end;
                if k < n - 1 {
                    assert(in_inner_cut(g, cuts, n - 1, t));
                    assert(cuts[k].end <= cursor);
                }
            }
            if plays_as_recorded(parts, t) {
                let k = choose|k: int|
                    0 <= k < parts.len() && (#[trigger] parts[k]).speed.is_normal() && plays(
                        parts[k],
                        t,
                    );
                assert(parts2[k] == parts[k]);
                assert(plays_as_recorded(parts2, t));
            }
            if cursor <= t < c.start {
                let m = parts.len() as int;
                assert(parts2[m].speed.is_normal() && plays(parts2[m], t));
                assert(plays_as_recorded(parts2, t));
            }
            if plays_as_recorded(parts2, t) {
                let k = choose|k: int|
                    0 <= k < parts2.len() && (#[trigger] parts2[k]).speed.is_normal() && plays(
                        parts2[k],
                        t,
                    );
                if k < parts.len() {
                    assert(parts2[k] == parts[k]);
                    assert(plays_as_recorded(parts, t));
                } else {
                    assert(cursor <= t < c.start);
                }
            }
        } else {
            if in_inner_cut(g, cuts, n, t) {
                let k = choose|k: int|
                    0 <= k < n && cut_inside(g, #[trigger] cuts[k]) && cuts[k].start <= t
                        < cuts[k].end;
                assert(k < n - 1);
                assert(in_inner_cut(g, cuts, n - 1, t));
            }
            if in_inner_cut(g, cuts, n - 1, t) {
                let k = choose|k: int|
                    0 <= k < n - 1 && cut_inside(g, #[trigger] cuts[k]) && cuts[k].start <= t
                        < cuts[k].end;
                assert(in_inner_cut(g, cuts, n, t));
            }
        }
    }
}

proof fn lemma_parts_of(g: Segment, cuts: Seq<CutView>, t: int)
    requires
        cuts_ordered(cuts),
        g.src_start <= g.src_end,
    ensures
        plays_as_recorded(parts_of(g, cuts), t) <==> g.speed.is_normal() && plays(g, t)
            && !in_inner_cut(g, cuts, cuts.len() as int, t),
{
    let n = cuts.len() as int;
    lemma_parts_upto(g, cuts, n, t);
    let (parts, cursor) = parts_upto(g, cuts, n);
    let all = parts_of(g, cuts);
    if !g.speed.is_normal() {
        if plays_as_recorded(all, t) {
            let k = choose|k: int|
                0 <= k < all.len() && (#[trigger] all[k]).speed.is_normal() && plays(all[k], t);
            assert(all[k] == g);
        }
    } else if cursor < g.src_end {
        let m = parts.len() as int;
        if plays_as_recorded(parts, t) {
            let k = choose|k: int|
                0 <= k < parts.len() && (#[trigger] parts[k]).speed.is_normal() && plays(
                    parts[k],
                    t,
                );
            assert(all[k] == parts[k]);
            assert(plays_as_recorded(all, t));
        }
        if cursor <= t < g.src_end {
            assert(all[m].speed.is_normal() && plays(all[m], t));
            assert(plays_as_recorded(all, t));
            if in_inner_cut(g, cuts, n, t) {
                let k = choose|k: int|
                    0 <= k < n && cut_inside(g, #[trigger] cuts[k]) && cuts[k].start <= t
                        < cuts[k].end;
                assert(cuts[k].end <= cursor);
            }
        }
        if plays_as_recorded(all, t) {
            let k = choose|k: int|
                0 <= k < all.len() && (#[trigger] all[k]).speed.is_normal() && plays(all[k], t);
            if k < m {
                assert(all[k] == parts[k]);
                assert(plays_as_recorded(parts, t));
            }
        }
    }
}

proof fn lemma_after_cuts(segs: Seq<Segment>, cuts: Seq<CutView>, t: int)
    requires
        cuts_ordered(cuts),
        forall|k: int| 0 <= k < segs.len() ==> (#[trigger] segs[k]).src_start <= segs[k].src_end,
    ensures
        plays_as_recorded(after_cuts(segs, cuts), t) <==> exists|k: int|
            0 <= k < segs.len() && (#[trigger] segs[k]).speed.is_normal() && plays(segs[k], t)
                && !in_inner_cut(segs[k], cuts, cuts.len() as int, t),
    decreases segs.len(),
{
    let n = cuts.len() as int;
    if segs.len() > 0 {
        let front = segs.drop_last();
        let g = segs.last();
        let m = front.len() as int;
        assert(g == segs[m]);
        assert forall|k: int| 0 <= k < front.len() implies (#[trigger] front[k]).src_start
            <= front[k].src_end by {
            assert(front[k] == segs[k]);
        }
        lemma_after_cuts(front, cuts, t);
        lemma_parts_of(g, cuts, t);
        let a = after_cuts(front, cuts);
        let b = parts_of(g, cuts);
        let all = after_cuts(segs, cuts);
        assert(all == a + b);
        if plays_as_recorded(all, t) {
            let k = choose|k: int|
                0 <= k < all.len() && (#[trigger] all[k]).speed.is_normal() && plays(all[k], t);
            if k < a.len() {
                assert(all[k] == a[k]);
                assert(plays_as_recorded(a, t));
                let j = choose|j: int|
                    0 <= j < front.len() && (#[trigger] front[j]).speed.is_normal() && plays(
                        front[j],
                        t,
                    ) && !in_inner_cut(front[j], cuts, n, t);
                assert(segs[j] == front[j]);
            } else {
                assert(all[k] == b[k - a.len()]);
                assert(plays_as_recorded(b, t));
                assert(segs[m].speed.is_normal());
            }
        }
        if exists|k: int|
            0 <= k < segs.len() && (#[trigger] segs[k]).speed.is_normal() && plays(segs[k], t)
                && !in_inner_cut(segs[k], cuts, n, t) {
            let k = choose|k: int|
                0 <= k < segs.len() && (#[trigger] segs[k]).speed.is_normal() && plays(segs[k], t)
                    && !in_inner_cut(segs[k], cuts, n, t);
            if k < m {
                assert(front[k] == segs[k]);
                assert(plays_as_recorded(a, t));
                let j = choose|j: int|
                    0 <= j < a.len() && (#[trigger] a[j]).speed.is_normal() && plays(a[j], t);
                assert(all[j] == a[j]);
            } else {
                assert(plays_as_recorded(b, t));
                let j = choose|j: int|
                    0 <= j < b.len() && (#[trigger] b[j]).speed.is_normal() && plays(b[j], t);
                assert(all[a.len() + j] == b[j]);
            }
        }
    } else {
        assert(!plays_as_recorded(after_cuts(segs, cuts), t));
    }
}

/// The moment lies in a cut that is applied: one inside a segment that plays as
/// recorded.
pub open spec fn in_applied_cut(segs: Seq<Segment>, cuts: Seq<CutView>, t: int) -> bool {
    exists|k: int|
        0 <= k < cuts.len() && (#[trigger] cuts[k]).start <= t < cuts[k].end && inside_normal(
            segs,
            cuts[k].start as int,
            cuts[k].end as int,
        )
}

/// Cutting removes the cuts and nothing else: a moment still plays as recorded
/// exactly when it did before and no cut that is applied holds it.
pub proof fn law_cuts_remove_only_cuts(segs: Seq<Segment>, cuts: Seq<CutView>, t: int)
    requires
        in_source_order(segs),
        cuts_ordered(cuts),
    ensures
        plays_as_recorded(after_cuts(segs, cuts), t) <==> plays_as_recorded(segs, t)
            && !in_applied_cut(segs, cuts, t),
{
    let n = cuts.len() as int;
    lemma_after_cuts(segs, cuts, t);
    if plays_as_recorded(after_cuts(segs, cuts), t) {
        let k = choose|k: int|
            0 <= k < segs.len() && (#[trigger] segs[k]).speed.is_normal() && plays(segs[k], t)
                && !in_inner_cut(segs[k], cuts, n, t);
        assert(plays_as_recorded(segs, t));
        if in_applied_cut(segs, cuts, t) {
            let j = choose|j: int|
                0 <= j < cuts.len() && (#[trigger] cuts[j]).start <= t < cuts[j].end
                    && inside_normal(segs, cuts[j].start as int, cuts[j].end as int);
            let q = choose|q: int|
                0 <= q < segs.len() && (#[trigger] segs[q]).speed.is_normal() && segs[q].src_start
                    <= cuts[j].start && cuts[j].end <= segs[q].src_end;
            assert(q == k) by {
                if q < k {
                    assert(segs[q].src_end <= segs[k].src_start);
                } else if k < q {
                    assert(segs[k].src_end <= segs[q].src_start);
                }
            }
            assert(cut_inside(segs[k], cuts[j]));
        }
    }
    if plays_as_recorded(segs, t) && !in_applied_cut(segs, cuts, t) {
        let k = choose|k: int|
            0 <= k < segs.len() && (#[trigger] segs[k]).speed.is_normal() && plays(segs[k], t);
        if in_inner_cut(segs[k], cuts, n, t) {
            let j = choose|j: int|
                0 <= j < n && cut_inside(segs[k], #[trigger] cuts[j]) && cuts[j].start <= t
                    < cuts[j].end;
            assert(inside_normal(segs, cuts[j].start as int, cuts[j].end as int));
        }
    }
}

// ---------------------------------------------------------------------------
// Laws
// ---------------------------------------------------------------------------
/// The candidate takes out the `i`-th word as a filler. Its one splice starts
/// 0.06 s before the word, or 0.14 s after the voice before it stopped where
/// that is later, and ends 0.6 s after the word, or 0.02 s before the next word
/// where that is earlier.
pub open spec fn is_filler_at(
    toks: Seq<TokenView>,
    energy: Seq<i64>,
    i: int,
    c: CandidateView,
) -> bool {
    let o = c.opts[0];
    let (w, next) = (toks[i], toks[i + 1]);
    &&& c.kind is Filler
    &&& c.opts.len() == 1
    &&& o.end <= next.start - 20_000
    &&& o.end <= w.end + 600_000
    &&& o.end == next.start - 20_000 || o.end == w.end + 600_000
    &&& o.start >= w.start - 60_000
    &&& o.start >= speech_end(w.start as int, energy) + 140_000
    &&& o.start == w.start - 60_000 || o.start == speech_end(w.start as int, energy) + 140_000
    &&& o.align is Span
    &&& c.text == w.raw
    &&& c.takes == 1
    &&& c.first_take == (w.start, w.end)
    &&& c.last_take == (w.start, w.end)
}

/// The `i`-th word is neither the first nor the last, is one of the seven words
/// that open a sentence for nothing, follows 0.18 s or more without speech, and
/// lasts no more than 0.85 s.
pub open spec fn can_go(toks: Seq<TokenView>, energy: Seq<i64>, i: int) -> bool {
    let w = toks[i].norm;
    &&& 1 <= i < toks.len() - 1
    &&& w == "so"@ || w == "okay"@ || w == "now"@ || w == "ok"@ || w == "also"@ || w == "then"@ || w
        == "and"@
    &&& quiet_before(toks[i].start as int, energy) >= 180_000
    &&& toks[i].end - toks[i].start <= 850_000
}

/// Every filler among the candidates is one that can go.
spec fn fillers_can_go(
    toks: Seq<TokenView>,
    energy: Seq<i64>,
    cands: Seq<CandidateView>,
) -> bool {
    forall|k: int|
        0 <= k < cands.len() && (#[trigger] cands[k]).kind is Filler ==> exists|i: int| #[trigger]
            can_go(toks, energy, i) && is_filler_at(toks, energy, i, cands[k])
}

proof fn lemma_filler_at(toks: Seq<TokenView>, energy: Seq<i64>, i: int)
    requires
        token_times(toks),
        energy_fits(energy),
        1 <= i < toks.len() - 1,
    ensures
        is_detachable(toks, energy, i) <==> can_go(toks, energy, i),
        is_filler_at(toks, energy, i, filler(toks, energy, i)),
{
    assert(-TIME_MAX <= toks[i].start <= TIME_MAX && -TIME_MAX <= toks[i].end <= TIME_MAX);
    assert(-TIME_MAX <= toks[i + 1].start <= TIME_MAX);
    crate::quiet::lemma_speech_end(toks[i].start as int, energy);
}

proof fn lemma_fillers_from(
    toks: Seq<TokenView>,
    energy: Seq<i64>,
    i: int,
    cands: Seq<CandidateView>,
)
    requires
        token_times(toks),
        energy_fits(energy),
        1 <= i,
        fillers_can_go(toks, energy, cands),
    ensures
        fillers_can_go(toks, energy, fillers_from(toks, energy, i, cands)),
        fillers_from(toks, energy, i, cands).len() >= cands.len(),
        fillers_from(toks, energy, i, cands).take(cands.len() as int) == cands,
        forall|j: int|
            i <= j && #[trigger] can_go(toks, energy, j) ==> exists|k: int|
                cands.len() <= k < fillers_from(toks, energy, i, cands).len() && is_filler_at(
                    toks,
                    energy,
                    j,
                    #[trigger] fillers_from(toks, energy, i, cands)[k],
                ),
        forall|k: int|
            cands.len() <= k < fillers_from(toks, energy, i, cands).len() ==> (
            #[trigger] fillers_from(toks, energy, i, cands)[k]).kind is Filler,
    decreases toks.len() - i,
{
    let all = fillers_from(toks, energy, i, cands);
    if i + 1 < toks.len() {
        lemma_filler_at(toks, energy, i);
        let c = filler(toks, energy, i);
        let more = if is_detachable(toks, energy, i) {
            cands.push(c)
        } else {
            cands
        };
        assert(fillers_can_go(toks, energy, more)) by {
            assert forall|k: int|
                0 <= k < more.len() && (#[trigger] more[k]).kind is Filler implies exists|j: int|
                #[trigger]
                can_go(toks, energy, j) && is_filler_at(toks, energy, j, more[k]) by {
                if k < cands.len() {
                    assert(more[k] == cands[k]);
                } else {
                    assert(can_go(toks, energy, i) && is_filler_at(toks, energy, i, more[k]));
                }
            }
        }
        lemma_fillers_from(toks, energy, i + 1, more);
        assert(all == fillers_from(toks, energy, i + 1, more));
        assert(all.take(cands.len() as int) =~= cands) by {
            assert forall|k: int| 0 <= k < cands.len() implies all[k] == cands[k] by {
                assert(all.take(more.len() as int)[k] == more[k]);
            }
        }
        if more.len() > cands.len() {
            assert(all[cands.len() as int] == all.take(more.len() as int)[cands.len() as int]);
            assert(all[cands.len() as int] == c);
        }
        assert forall|j: int| i <= j && #[trigger] can_go(toks, energy, j) implies exists|k: int|
            cands.len() <= k < all.len() && is_filler_at(toks, energy, j, #[trigger] all[k]) by {
            if j == i {
                assert(is_filler_at(toks, energy, j, all[cands.len() as int]));
            } else {
                assert(i + 1 <= j && can_go(toks, energy, j));
                let k = choose|k: int|
                    more.len() <= k < all.len() && is_filler_at(toks, energy, j, #[trigger] all[k]);
                assert(is_filler_at(toks, energy, j, all[k]));
            }
        }
        assert forall|k: int| cands.len() <= k < all.len() implies (
        #[trigger] all[k]).kind is Filler by {}
    } else {
        assert(all.take(cands.len() as int) =~= cands);
    }
}

proof fn lemma_no_fillers_yet(toks: Seq<TokenView>, l: int, i: int, cands: Seq<CandidateView>)
    requires
        forall|k: int| 0 <= k < cands.len() ==> (#[trigger] cands[k]).kind !is Filler,
    ensures
        forall|k: int|
            0 <= k < repeats_from(toks, l, i, cands).len() ==> (#[trigger] repeats_from(
                toks,
                l,
                i,
                cands,
            )[k]).kind !is Filler,
        repeats_from(toks, l, i, cands).len() >= cands.len(),
        repeats_from(toks, l, i, cands).take(cands.len() as int) == cands,
    decreases toks.len() - i,
{
    let all = repeats_from(toks, l, i, cands);
    if !(l < 1 || i < 0 || i + 2 * l > toks.len()) {
        let t = takes(toks, l, i);
        if t.len() >= 2 {
            lemma_last_take(toks, l, i);
            let more = if any_overlap(cands, toks[i].start as int, toks[t.last()].start as int) {
                cands
            } else {
                cands.push(repeat(toks, l, i, t[1], t.last(), t.len() as int))
            };
            lemma_no_fillers_yet(toks, l, t.last() + l, more);
            assert forall|k: int| 0 <= k < cands.len() implies all[k] == cands[k] by {
                assert(all.take(more.len() as int)[k] == more[k]);
            }
        } else {
            lemma_no_fillers_yet(toks, l, i + 1, cands);
        }
    }
    assert(all.take(cands.len() as int) =~= cands);
}

proof fn lemma_no_fillers_down(toks: Seq<TokenView>, l: int, cands: Seq<CandidateView>)
    requires
        forall|k: int| 0 <= k < cands.len() ==> (#[trigger] cands[k]).kind !is Filler,
    ensures
        forall|k: int|
            0 <= k < repeats_down(toks, l, cands).len() ==> (#[trigger] repeats_down(
                toks,
                l,
                cands,
            )[k]).kind !is Filler,
        repeats_down(toks, l, cands).len() >= cands.len(),
        repeats_down(toks, l, cands).take(cands.len() as int) == cands,
    decreases l,
{
    let all = repeats_down(toks, l, cands);
    if l >= MIN_PHRASE {
        let more = repeats_from(toks, l, 0, cands);
        lemma_no_fillers_yet(toks, l, 0, cands);
        lemma_no_fillers_down(toks, l - 1, more);
        assert forall|k: int| 0 <= k < cands.len() implies all[k] == cands[k] by {
            assert(all.take(more.len() as int)[k] == more[k]);
            assert(more.take(cands.len() as int)[k] == cands[k]);
        }
    }
    assert(all.take(cands.len() as int) =~= cands);
}

proof fn lemma_token_times(words: Seq<Word>)
    requires
        words_fit(words),
    ensures
        token_times(tokens_of(words)),
    decreases words.len(),
{
    if words.len() > 0 {
        let front = words.drop_last();
        assert forall|k: int| 0 <= k < front.len() implies (#[trigger] front[k]).wf() by {
            assert(words[k].wf());
        }
        lemma_token_times(front);
        assert(words[words.len() - 1].wf());
    }
}

/// A filler is taken out with the pause around it and never with the words
/// around it: every candidate of that kind stands for a word that can go, ends
/// at least 0.02 s before the next word starts and no more than 0.6 s after its
/// own word ends, and starts at least 0.14 s after the voice before it stopped.
pub proof fn law_a_filler_span_never_reaches_the_next_word(
    words: Seq<Word>,
    energy_edge: Seq<i64>,
    k: int,
) -> (i: int)
    requires
        words_fit(words),
        energy_fits(energy_edge),
        0 <= k < proposed(words, energy_edge).len(),
        proposed(words, energy_edge)[k].kind is Filler,
    ensures
        can_go(tokens_of(words), energy_edge, i),
        is_filler_at(tokens_of(words), energy_edge, i, proposed(words, energy_edge)[k]),
{
    let toks = tokens_of(words);
    lemma_token_times(words);
    let st = stutters_from(toks, 0);
    lemma_stutters_only(toks, 0);
    lemma_no_fillers_down(toks, MAX_PHRASE as int, st);
    let rs = repeats_down(toks, MAX_PHRASE as int, st);
    assert(fillers_can_go(toks, energy_edge, rs));
    lemma_fillers_from(toks, energy_edge, 1, rs);
    let c = proposed(words, energy_edge)[k];
    choose|i: int| #[trigger]
        can_go(toks, energy_edge, i) && is_filler_at(toks, energy_edge, i, c)
}

/// No filler is missed: every word that can go is proposed as one.
pub proof fn law_every_detachable_filler_is_proposed(
    words: Seq<Word>,
    energy_edge: Seq<i64>,
    i: int,
) -> (k: int)
    requires
        words_fit(words),
        energy_fits(energy_edge),
        can_go(tokens_of(words), energy_edge, i),
    ensures
        0 <= k < proposed(words, energy_edge).len(),
        is_filler_at(tokens_of(words), energy_edge, i, proposed(words, energy_edge)[k]),
{
    let toks = tokens_of(words);
    lemma_token_times(words);
    let st = stutters_from(toks, 0);
    lemma_stutters_only(toks, 0);
    lemma_no_fillers_down(toks, MAX_PHRASE as int, st);
    let rs = repeats_down(toks, MAX_PHRASE as int, st);
    assert(fillers_can_go(toks, energy_edge, rs));
    lemma_fillers_from(toks, energy_edge, 1, rs);
    choose|k: int|
        rs.len() <= k < fillers_from(toks, energy_edge, 1, rs).len() && is_filler_at(
            toks,
            energy_edge,
            i,
            #[trigger] fillers_from(toks, energy_edge, 1, rs)[k],
        )
}

/// The word after the `m`-th says it again, less than 0.9 s later.
pub open spec fn echoes(toks: Seq<TokenView>, m: int) -> bool {
    &&& 0 <= m
    &&& m + 1 < toks.len()
    &&& toks[m].norm == toks[m + 1].norm
    &&& toks[m + 1].start - toks[m].end < 900_000
}

/// The words from the `i`-th to the `j`-th are one word said over and over, and
/// the words around them do not go on with it.
pub open spec fn is_whole_stutter(toks: Seq<TokenView>, i: int, j: int) -> bool {
    &&& 0 <= i < j < toks.len()
    &&& forall|m: int| i <= m < j ==> #[trigger] echoes(toks, m)
    &&& !echoes(toks, i - 1)
    &&& !echoes(toks, j)
}

/// The candidate keeps the last of the words from the `i`-th to the `j`-th: it
/// cuts from where the first starts to where the last starts, or else from
/// where the first ends to where the last ends.
pub open spec fn keeps_the_last(toks: Seq<TokenView>, i: int, j: int, c: CandidateView) -> bool {
    &&& c.kind is Stutter
    &&& c.opts.len() == 2
    &&& c.opts[0].start == toks[i].start && c.opts[0].end == toks[j].start
    &&& c.opts[0].align is KeepLast
    &&& c.opts[1].start == toks[i].end && c.opts[1].end == toks[j].end
    &&& c.opts[1].align is KeepLastAlt
    &&& c.text == toks[i].norm
    &&& c.takes == j - i + 1
    &&& c.first_take == (toks[i].start, toks[i].end)
    &&& c.last_take == (toks[j].start, toks[j].end)
}

proof fn lemma_stutter_reach(toks: Seq<TokenView>, i: int, j: int)
    requires
        0 <= i <= j < toks.len(),
        forall|m: int| i <= m < j ==> #[trigger] echoes(toks, m),
        toks[j].norm == toks[i].norm,
    ensures
        ({
            let e = stutter_end(toks, i, j);
            &&& j <= e < toks.len()
            &&& forall|m: int| i <= m < e ==> #[trigger] echoes(toks, m)
            &&& !echoes(toks, e)
            &&& toks[e].norm == toks[i].norm
        }),
    decreases toks.len() - j,
{
    if j + 1 < toks.len() && toks[j + 1].norm == toks[i].norm && toks[j + 1].start - toks[j].end
        < STUTTER_GAP_US {
        assert(echoes(toks, j));
        assert forall|m: int| i <= m < j + 1 implies #[trigger] echoes(toks, m) by {
            if m < j {
                assert(echoes(toks, m));
            }
        }
        lemma_stutter_reach(toks, i, j + 1);
    }
}

proof fn lemma_stutters_are_whole(toks: Seq<TokenView>, i: int)
    requires
        0 <= i,
        !echoes(toks, i - 1),
    ensures
        forall|k: int|
            0 <= k < stutters_from(toks, i).len() ==> exists|a: int, b: int| #[trigger]
                is_whole_stutter(toks, a, b) && keeps_the_last(
                    toks,
                    a,
                    b,
                    #[trigger] stutters_from(toks, i)[k],
                ),
        forall|m: int|
            i <= m && #[trigger] echoes(toks, m) ==> exists|k: int, a: int, b: int|
                0 <= k < stutters_from(toks, i).len() && a <= m < b && #[trigger] is_whole_stutter(
                    toks,
                    a,
                    b,
                ) && keeps_the_last(toks, a, b, #[trigger] stutters_from(toks, i)[k]),
    decreases toks.len() - i,
{
    let all = stutters_from(toks, i);
    if i + 1 < toks.len() {
        let j = stutter_end(toks, i, i);
        lemma_stutter_reach(toks, i, i);
        if j > i {
            assert(is_whole_stutter(toks, i, j));
            lemma_stutters_are_whole(toks, j + 1);
            let rest = stutters_from(toks, j + 1);
            assert(all == seq![stutter(toks, i, j)] + rest);
            assert(keeps_the_last(toks, i, j, all[0]));
            assert forall|k: int| 0 <= k < all.len() implies exists|a: int, b: int| #[trigger]
                is_whole_stutter(toks, a, b) && keeps_the_last(toks, a, b, #[trigger] all[k]) by {
                if k > 0 {
                    assert(all[k] == rest[k - 1]);
                    let (a, b) = choose|a: int, b: int| #[trigger]
                        is_whole_stutter(toks, a, b) && keeps_the_last(toks, a, b, rest[k - 1]);
                    assert(is_whole_stutter(toks, a, b) && keeps_the_last(toks, a, b, all[k]));
                }
            }
            assert forall|m: int| i <= m && #[trigger] echoes(toks, m) implies exists|
                k: int,
                a: int,
                b: int,
            |
                0 <= k < all.len() && a <= m < b && #[trigger] is_whole_stutter(toks, a, b)
                    && keeps_the_last(toks, a, b, #[trigger] all[k]) by {
                if m < j {
                    assert(is_whole_stutter(toks, i, j) && keeps_the_last(toks, i, j, all[0]));
                } else {
                    assert(j + 1 <= m);
                    let (k, a, b) = choose|k: int, a: int, b: int|
                        0 <= k < rest.len() && a <= m < b && #[trigger] is_whole_stutter(
                            toks,
                            a,
                            b,
                        ) && keeps_the_last(toks, a, b, #[trigger] rest[k]);
                    assert(all[k + 1] == rest[k]);
                    assert(is_whole_stutter(toks, a, b) && keeps_the_last(toks, a, b, all[k + 1]));
                }
            }
        } else {
            assert(!echoes(toks, i));
            lemma_stutters_are_whole(toks, i + 1);
        }
    }
}

proof fn lemma_stutters_come_first(words: Seq<Word>, energy_edge: Seq<i64>)
    requires
        words_fit(words),
        energy_fits(energy_edge),
    ensures
        ({
            let (all, st) = (proposed(words, energy_edge), stutters_from(tokens_of(words), 0));
            &&& all.len() >= st.len()
            &&& forall|k: int| 0 <= k < st.len() ==> #[trigger] all[k] == st[k]
            &&& forall|k: int| 0 <= k < all.len() && (#[trigger] all[k]).kind is Stutter ==> k
                < st.len()
        }),
{
    let toks = tokens_of(words);
    lemma_token_times(words);
    let st = stutters_from(toks, 0);
    lemma_stutters_only(toks, 0);
    lemma_no_fillers_down(toks, MAX_PHRASE as int, st);
    lemma_no_stutters_down(toks, MAX_PHRASE as int, st, st.len() as int);
    let rs = repeats_down(toks, MAX_PHRASE as int, st);
    lemma_fillers_from(toks, energy_edge, 1, rs);
    let all = proposed(words, energy_edge);
    assert forall|k: int| 0 <= k < rs.len() implies all[k] == rs[k] by {
        assert(all.take(rs.len() as int)[k] == rs[k]);
    }
    assert forall|k: int| 0 <= k < st.len() implies #[trigger] all[k] == st[k] by {
        assert(rs.take(st.len() as int)[k] == st[k]);
        assert(all[k] == rs[k]);
    }
    assert forall|k: int| 0 <= k < all.len() && (#[trigger] all[k]).kind is Stutter implies k
        < st.len() by {
        if k < rs.len() {
            assert(all[k] == rs[k]);
        }
    }
}

proof fn lemma_no_stutters_from(
    toks: Seq<TokenView>,
    l: int,
    i: int,
    cands: Seq<CandidateView>,
    n: int,
)
    requires
        0 <= n,
        forall|k: int| n <= k < cands.len() ==> (#[trigger] cands[k]).kind is Repeat,
    ensures
        forall|k: int|
            n <= k < repeats_from(toks, l, i, cands).len() ==> (#[trigger] repeats_from(
                toks,
                l,
                i,
                cands,
            )[k]).kind is Repeat,
    decreases toks.len() - i,
{
    if !(l < 1 || i < 0 || i + 2 * l > toks.len()) {
        let t = takes(toks, l, i);
        if t.len() >= 2 {
            lemma_last_take(toks, l, i);
            let more = if any_overlap(cands, toks[i].start as int, toks[t.last()].start as int) {
                cands
            } else {
                cands.push(repeat(toks, l, i, t[1], t.last(), t.len() as int))
            };
            lemma_no_stutters_from(toks, l, t.last() + l, more, n);
        } else {
            lemma_no_stutters_from(toks, l, i + 1, cands, n);
        }
    }
}

proof fn lemma_no_stutters_down(toks: Seq<TokenView>, l: int, cands: Seq<CandidateView>, n: int)
    requires
        0 <= n,
        forall|k: int| n <= k < cands.len() ==> (#[trigger] cands[k]).kind is Repeat,
    ensures
        forall|k: int|
            n <= k < repeats_down(toks, l, cands).len() ==> (#[trigger] repeats_down(
                toks,
                l,
                cands,
            )[k]).kind is Repeat,
    decreases l,
{
    if l >= MIN_PHRASE {
        lemma_no_stutters_from(toks, l, 0, cands, n);
        lemma_no_stutters_down(toks, l - 1, repeats_from(toks, l, 0, cands), n);
    }
}

/// A stutter is a word said over and over, taken whole, and only its last
/// saying is kept: that is what every candidate of that kind stands for.
pub proof fn law_a_stutter_keeps_its_last_word(
    words: Seq<Word>,
    energy_edge: Seq<i64>,
    k: int,
) -> (at: (int, int))
    requires
        words_fit(words),
        energy_fits(energy_edge),
        0 <= k < proposed(words, energy_edge).len(),
        proposed(words, energy_edge)[k].kind is Stutter,
    ensures
        is_whole_stutter(tokens_of(words), at.0, at.1),
        keeps_the_last(tokens_of(words), at.0, at.1, proposed(words, energy_edge)[k]),
{
    let toks = tokens_of(words);
    lemma_stutters_come_first(words, energy_edge);
    lemma_stutters_are_whole(toks, 0);
    let c = stutters_from(toks, 0)[k];
    choose|a: int, b: int| #[trigger]
        is_whole_stutter(toks, a, b) && keeps_the_last(toks, a, b, c)
}

/// No stutter is missed: every word that is said again at once is in one that
/// is proposed.
pub proof fn law_every_stutter_is_proposed(
    words: Seq<Word>,
    energy_edge: Seq<i64>,
    m: int,
) -> (r: (int, int, int))
    requires
        words_fit(words),
        energy_fits(energy_edge),
        echoes(tokens_of(words), m),
    ensures
        0 <= r.0 < proposed(words, energy_edge).len(),
        r.1 <= m < r.2,
        is_whole_stutter(tokens_of(words), r.1, r.2),
        keeps_the_last(tokens_of(words), r.1, r.2, proposed(words, energy_edge)[r.0]),
{
    let toks = tokens_of(words);
    lemma_stutters_come_first(words, energy_edge);
    lemma_stutters_are_whole(toks, 0);
    let st = stutters_from(toks, 0);
    choose|k: int, a: int, b: int|
        0 <= k < st.len() && a <= m < b && #[trigger] is_whole_stutter(toks, a, b)
            && keeps_the_last(toks, a, b, #[trigger] st[k])
}

/// Two stretches of `l` words are the same, word for word.
pub open spec fn says_again(toks: Seq<TokenView>, l: int, i: int, j: int) -> bool {
    forall|k: int| 0 <= k < l ==> (#[trigger] toks[i + k]).norm == toks[j + k].norm
}

/// A repeat stands for takes of one phrase of four to seven words that do not
/// run into each other, the last of them within forty words of the first and
/// each within 3 s of the one before. What it cuts, in order of preference, is
/// everything up to the last take, the same one phrase later, the first take up
/// to the second, and the same one phrase later.
pub proof fn law_a_repeat_keeps_its_last_take(
    words: Seq<Word>,
    energy_edge: Seq<i64>,
    k: int,
) -> (r: (int, Seq<int>))
    requires
        0 <= k < proposed(words, energy_edge).len(),
        proposed(words, energy_edge)[k].kind is Repeat,
    ensures
        ({
            let (l, t) = r;
            let toks = tokens_of(words);
            let c = proposed(words, energy_edge)[k];
            let n = t.len() as int;
            let (a, b, z) = (t[0], t[1], t[n - 1]);
            &&& 4 <= l <= 7
            &&& n >= 2
            &&& 0 <= a && a + l <= b <= z && z + l <= toks.len() && z < a + 40
            &&& forall|j: int| 0 <= j < n ==> says_again(toks, l, a, #[trigger] t[j])
            &&& forall|i: int, j: int|
                0 <= i && j == i + 1 && j < n ==> (#[trigger] t[i]) < (#[trigger] t[j])
                    && toks[t[j]].start - toks[t[i] + l - 1].end <= 3_000_000
            &&& c.takes == n
            &&& c.opts.len() == 4
            &&& c.opts[0].start == toks[a].start && c.opts[0].end == toks[z].start
            &&& c.opts[1].start == toks[a + l - 1].end && c.opts[1].end == toks[z + l - 1].end
            &&& c.opts[2].start == toks[a].start && c.opts[2].end == toks[b].start
            &&& c.opts[3].start == toks[a + l - 1].end && c.opts[3].end == toks[b + l - 1].end
            &&& c.opts[0].align is KeepLast && c.opts[1].align is KeepLastAlt
            &&& c.opts[2].align is DropFirst && c.opts[3].align is DropSecond
            &&& c.first_take == (toks[a].start, toks[a + l - 1].end)
            &&& c.last_take == (toks[z].start, toks[z + l - 1].end)
        }),
{
    let (l, i) = law_repeats_were_said_twice(words, energy_edge, k);
    let toks = tokens_of(words);
    let t = takes(toks, l, i);
    let n = t.len() as int;
    lemma_last_take(toks, l, i);
    let first_end = toks[i + l - 1].end as int;
    lemma_takes_window(toks, l, i, i + l, first_end);
    let rest = takes_from(toks, l, i, i + l, first_end);
    assert(t =~= seq![i] + rest);
    assert(t[0] == i && t[1] == rest[0]);
    assert(t[n - 1] == rest[n - 2]);
    assert forall|a: int, b: int| 0 <= a && b == a + 1 && b < n implies (#[trigger] t[a]) < (
    #[trigger] t[b]) && toks[t[b]].start - toks[t[a] + l - 1].end <= 3_000_000 by {
        assert(t[b] == rest[b - 1]);
        if a > 0 {
            assert(t[a] == rest[a - 1]);
        }
    }
    assert forall|j: int| 0 <= j < n implies says_again(toks, l, i, #[trigger] t[j]) by {
        assert(same_phrase(toks, l, t[0], t[j]));
    }
    if n > 2 {
        assert(rest[0] < rest[n - 2]);
    }
    (l, t)
}

proof fn lemma_takes_window(toks: Seq<TokenView>, l: int, i: int, j: int, last_end: int)
    ensures
        ({
            let t = takes_from(toks, l, i, j, last_end);
            &&& forall|k: int|
                0 <= k < t.len() ==> j <= #[trigger] t[k] < i + 40 && t[k] + l <= toks.len()
            &&& forall|a: int, b: int|
                0 <= a < b < t.len() ==> (#[trigger] t[a]) < (#[trigger] t[b])
        }),
    decreases search_end(toks, l, i) - j,
{
    if j < search_end(toks, l, i) {
        if !same_phrase(toks, l, i, j) {
            lemma_takes_window(toks, l, i, j + 1, last_end);
            assert(takes_from(toks, l, i, j, last_end) == takes_from(toks, l, i, j + 1, last_end));
        } else if toks[j].start - last_end > MAX_TAKE_GAP_US {
        } else {
            let e = toks[j + l - 1].end as int;
            lemma_takes_window(toks, l, i, j + 1, e);
            let rest = takes_from(toks, l, i, j + 1, e);
            let t = takes_from(toks, l, i, j, last_end);
            assert(t =~= seq![j] + rest);
            assert forall|k: int| 0 <= k < t.len() implies j <= #[trigger] t[k] < i + 40 && t[k]
                + l <= toks.len() by {
                if k > 0 {
                    assert(t[k] == rest[k - 1]);
                }
            }
            assert forall|a: int, b: int| 0 <= a < b < t.len() implies (#[trigger] t[a]) < (
            #[trigger] t[b]) by {
                assert(t[b] == rest[b - 1]);
                if a > 0 {
                    assert(t[a] == rest[a - 1]);
                }
            }
        }
    }
}

proof fn lemma_no_take_missed(toks: Seq<TokenView>, l: int, i: int, j: int, last_end: int, m: int)
    requires
        j <= m < i + 40,
        m + l <= toks.len(),
        says_again(toks, l, i, m),
    ensures
        ({
            let t = takes_from(toks, l, i, j, last_end);
            ||| t.contains(m)
            ||| exists|b: int|
                j <= b <= m && #[trigger] says_again(toks, l, i, b) && toks[b].start - (if t.len()
                    > 0 {
                    toks[t.last() + l - 1].end as int
                } else {
                    last_end
                }) > 3_000_000
        }),
    decreases search_end(toks, l, i) - j,
{
    let t = takes_from(toks, l, i, j, last_end);
    assert(same_phrase(toks, l, i, m)) by {
        assert forall|k: int| 0 <= k < l implies #[trigger] toks[i + k].norm == toks[m
            + k].norm by {}
    }
    assert(j < search_end(toks, l, i));
    if !same_phrase(toks, l, i, j) {
        lemma_no_take_missed(toks, l, i, j + 1, last_end, m);
    } else if toks[j].start - last_end > MAX_TAKE_GAP_US {
        assert(says_again(toks, l, i, j));
    } else {
        let e = toks[j + l - 1].end as int;
        let rest = takes_from(toks, l, i, j + 1, e);
        assert(t =~= seq![j] + rest);
        if m == j {
            assert(t[0] == m);
        } else {
            lemma_no_take_missed(toks, l, i, j + 1, e, m);
            if rest.contains(m) {
                let k = choose|k: int| 0 <= k < rest.len() && rest[k] == m;
                assert(t[k + 1] == m);
            } else if rest.len() > 0 {
                assert(t.last() == rest.last());
            } else {
                assert(t.last() == j);
            }
        }
    }
}

/// No take is missed: a phrase that is said again within forty words of its
/// first take is one of the takes, unless more than 3 s went by between the
/// last of them and a take that came no later than it.
pub proof fn law_every_take_is_collected(toks: Seq<TokenView>, l: int, i: int, m: int)
    requires
        1 <= l,
        0 <= i,
        i + l <= m < i + 40,
        m + l <= toks.len(),
        says_again(toks, l, i, m),
    ensures
        takes(toks, l, i)[0] == i,
        takes(toks, l, i).contains(m) || exists|b: int|
            i + l <= b <= m && #[trigger] says_again(toks, l, i, b) && toks[b].start - toks[takes(
                toks,
                l,
                i,
            ).last() + l - 1].end > 3_000_000,
{
    let e = toks[i + l - 1].end as int;
    lemma_no_take_missed(toks, l, i, i + l, e, m);
    let rest = takes_from(toks, l, i, i + l, e);
    let t = takes(toks, l, i);
    assert(t =~= seq![i] + rest);
    if rest.contains(m) {
        let k = choose|k: int| 0 <= k < rest.len() && rest[k] == m;
        assert(t[k + 1] == m);
    } else if rest.len() > 0 {
        assert(t.last() == rest.last());
    } else {
        assert(t.last() == i);
    }
}

proof fn lemma_something_from(
    toks: Seq<TokenView>,
    l: int,
    i: int,
    cands: Seq<CandidateView>,
    m: int,
)
    requires
        1 <= l,
        0 <= i <= m,
        m + 2 * l <= toks.len(),
        takes(toks, l, m).len() >= 2,
    ensures
        repeats_from(toks, l, i, cands).len() > 0,
    decreases toks.len() - i,
{
    let t = takes(toks, l, i);
    if t.len() >= 2 {
        lemma_last_take(toks, l, i);
        let more = if any_overlap(cands, toks[i].start as int, toks[t.last()].start as int) {
            cands
        } else {
            cands.push(repeat(toks, l, i, t[1], t.last(), t.len() as int))
        };
        lemma_repeats_only_grow(toks, l, t.last() + l, more);
    } else {
        lemma_something_from(toks, l, i + 1, cands, m);
    }
}

proof fn lemma_repeats_only_grow(toks: Seq<TokenView>, l: int, i: int, cands: Seq<CandidateView>)
    ensures
        repeats_from(toks, l, i, cands).len() >= cands.len(),
    decreases toks.len() - i,
{
    if !(l < 1 || i < 0 || i + 2 * l > toks.len()) {
        let t = takes(toks, l, i);
        if t.len() >= 2 {
            lemma_last_take(toks, l, i);
            let more = if any_overlap(cands, toks[i].start as int, toks[t.last()].start as int) {
                cands
            } else {
                cands.push(repeat(toks, l, i, t[1], t.last(), t.len() as int))
            };
            lemma_repeats_only_grow(toks, l, t.last() + l, more);
        } else {
            lemma_repeats_only_grow(toks, l, i + 1, cands);
        }
    }
}

proof fn lemma_down_only_grows(toks: Seq<TokenView>, l: int, cands: Seq<CandidateView>)
    ensures
        repeats_down(toks, l, cands).len() >= cands.len(),
    decreases l,
{
    if l >= MIN_PHRASE {
        lemma_repeats_only_grow(toks, l, 0, cands);
        lemma_down_only_grows(toks, l - 1, repeats_from(toks, l, 0, cands));
    }
}

proof fn lemma_something_down(
    toks: Seq<TokenView>,
    top: int,
    l: int,
    cands: Seq<CandidateView>,
    m: int,
)
    requires
        4 <= l <= top,
        0 <= m,
        m + 2 * l <= toks.len(),
        takes(toks, l, m).len() >= 2,
    ensures
        repeats_down(toks, top, cands).len() > 0,
    decreases top,
{
    let more = repeats_from(toks, top, 0, cands);
    if top == l {
        lemma_something_from(toks, l, 0, cands, m);
        lemma_down_only_grows(toks, top - 1, more);
    } else {
        lemma_something_down(toks, top - 1, l, more, m);
    }
}

/// A phrase of four to seven words that is said again at once does not go
/// unnoticed: something is proposed, a repeat or what was there to be cut
/// already.
pub proof fn law_a_repetition_does_not_go_unnoticed(
    words: Seq<Word>,
    energy_edge: Seq<i64>,
    l: int,
    i: int,
)
    requires
        words_fit(words),
        energy_fits(energy_edge),
        4 <= l <= 7,
        0 <= i,
        i + 2 * l <= tokens_of(words).len(),
        says_again(tokens_of(words), l, i, i + l),
        tokens_of(words)[i + l].start - tokens_of(words)[i + l - 1].end <= 3_000_000,
    ensures
        exists|k: int|
            0 <= k < proposed(words, energy_edge).len() && (#[trigger] proposed(
                words,
                energy_edge,
            )[k]).kind !is Filler,
{
    let toks = tokens_of(words);
    let e = toks[i + l - 1].end as int;
    let rest = takes_from(toks, l, i, i + l, e);
    assert(same_phrase(toks, l, i, i + l)) by {
        assert forall|k: int| 0 <= k < l implies #[trigger] toks[i + k].norm == toks[i + l
            + k].norm by {}
    }
    assert(rest.len() > 0 && rest[0] == i + l);
    assert(takes(toks, l, i).len() >= 2);
    lemma_token_times(words);
    let st = stutters_from(toks, 0);
    lemma_stutters_only(toks, 0);
    lemma_no_fillers_down(toks, MAX_PHRASE as int, st);
    lemma_something_down(toks, MAX_PHRASE as int, l, st, i);
    let rs = repeats_down(toks, MAX_PHRASE as int, st);
    assert(fillers_can_go(toks, energy_edge, rs));
    lemma_fillers_from(toks, energy_edge, 1, rs);
    let all = proposed(words, energy_edge);
    assert(all.take(rs.len() as int)[0] == rs[0]);
    assert(all[0] == rs[0]);
}

/// A splice can be made: moved to the quietest point within reach at each end,
/// it lasts from 0.15 s to 9.5 s, both ends are at -44.78 dB or under and in
/// 0.1 s of quiet or more, it starts 0.08 s or more after the cut before it,
/// and one stretch that plays as recorded holds all of it.
pub open spec fn can_splice(
    o: Splice,
    energy: Seq<i64>,
    segs: Seq<Segment>,
    last_end: Option<i64>,
) -> bool {
    let (s, e) = (snapped(o.start as int, energy).0, snapped(o.end as int, energy).0);
    &&& 150_000 <= e - s <= 9_500_000
    &&& snapped(o.start as int, energy).1 <= -44_780_000
    &&& snapped(o.end as int, energy).1 <= -44_780_000
    &&& quiet_run(s, energy) >= 100_000
    &&& quiet_run(e, energy) >= 100_000
    &&& last_end matches Some(t) ==> s >= t + 80_000
    &&& exists|k: int|
        0 <= k < segs.len() && (#[trigger] segs[k]).speed.num == segs[k].speed.den
            && segs[k].src_start <= s && e <= segs[k].src_end
}

/// The end of the last cut that was accepted.
pub open spec fn last_cut_end(v: Verdicts) -> Option<i64> {
    if v.accepted.len() > 0 {
        Some(v.accepted[v.accepted.len() - 1].end)
    } else {
        None
    }
}

proof fn lemma_can_splice(
    o: Splice,
    energy: Seq<i64>,
    segs: Seq<Segment>,
    last_end: Option<i64>,
)
    requires
        near(o.start as int),
        near(o.end as int),
        energy_fits(energy),
    ensures
        try_splice(o, energy, segs, last_end) is Ok <==> can_splice(o, energy, segs, last_end),
        try_splice(o, energy, segs, last_end) matches Ok(r) ==> r.0 == snapped(
            o.start as int,
            energy,
        ).0 && r.1 == snapped(o.end as int, energy).0,
{
    lemma_snapped_near(o.start as int, energy);
    lemma_snapped_near(o.end as int, energy);
    let (s, e) = (snapped(o.start as int, energy).0, snapped(o.end as int, energy).0);
    if inside_normal(segs, s, e) {
        let k = choose|k: int|
            0 <= k < segs.len() && (#[trigger] segs[k]).speed.is_normal() && segs[k].src_start <= s
                && e <= segs[k].src_end;
        assert(segs[k].speed.num == segs[k].speed.den);
    }
    if can_splice(o, energy, segs, last_end) {
        let k = choose|k: int|
            0 <= k < segs.len() && (#[trigger] segs[k]).speed.num == segs[k].speed.den
                && segs[k].src_start <= s && e <= segs[k].src_end;
        assert(segs[k].speed.is_normal());
    }
}

proof fn lemma_first_that_can(
    opts: Seq<Splice>,
    k: int,
    why: Why,
    energy: Seq<i64>,
    segs: Seq<Segment>,
    last_end: Option<i64>,
)
    requires
        0 <= k <= opts.len(),
        energy_fits(energy),
        forall|j: int|
            0 <= j < opts.len() ==> near((#[trigger] opts[j]).start as int) && near(
                opts[j].end as int,
            ),
    ensures
        match place_from(opts, k, why, energy, segs, last_end) {
            Ok(p) => exists|j: int|
                k <= j < opts.len() && can_splice(#[trigger] opts[j], energy, segs, last_end)
                    && p.start == snapped(opts[j].start as int, energy).0 && p.end == snapped(
                    opts[j].end as int,
                    energy,
                ).0 && p.align == opts[j].align && (forall|i: int|
                    k <= i < j ==> !can_splice(#[trigger] opts[i], energy, segs, last_end)),
            Err(_) => forall|j: int|
                k <= j < opts.len() ==> !can_splice(#[trigger] opts[j], energy, segs, last_end),
        },
    decreases opts.len() - k,
{
    if k < opts.len() {
        lemma_can_splice(opts[k], energy, segs, last_end);
        match try_splice(opts[k], energy, segs, last_end) {
            Ok(r) => {
                assert(can_splice(opts[k], energy, segs, last_end));
            },
            Err(w) => {
                lemma_first_that_can(opts, k + 1, w, energy, segs, last_end);
                if place_from(opts, k + 1, w, energy, segs, last_end) is Ok {
                    let p = place_from(opts, k + 1, w, energy, segs, last_end)->Ok_0;
                    let j = choose|j: int|
                        k + 1 <= j < opts.len() && can_splice(
                            #[trigger] opts[j],
                            energy,
                            segs,
                            last_end,
                        ) && p.start == snapped(opts[j].start as int, energy).0 && p.end == snapped(
                            opts[j].end as int,
                            energy,
                        ).0 && p.align == opts[j].align && (forall|i: int|
                            k + 1 <= i < j ==> !can_splice(
                                #[trigger] opts[i],
                                energy,
                                segs,
                                last_end,
                            ));
                    assert forall|i: int| k <= i < j implies !can_splice(
                        #[trigger] opts[i],
                        energy,
                        segs,
                        last_end,
                    ) by {
                        if i > k {
                            assert(k + 1 <= i);
                        }
                    }
                    assert(can_splice(opts[j], energy, segs, last_end));
                }
            },
        }
    }
}

/// The candidate is accepted with its `j`-th alignment, the first that can be
/// spliced: both ends moved to the quietest point within reach, and what it
/// stands for carried over.
pub open spec fn accepted_with(
    cut: CutView,
    c: CandidateView,
    sim: i64,
    j: int,
    energy: Seq<i64>,
    segs: Seq<Segment>,
    last_end: Option<i64>,
) -> bool {
    &&& 0 <= j < c.opts.len()
    &&& can_splice(c.opts[j], energy, segs, last_end)
    &&& forall|i: int| 0 <= i < j ==> !can_splice(#[trigger] c.opts[i], energy, segs, last_end)
    &&& cut.start == snapped(c.opts[j].start as int, energy).0
    &&& cut.end == snapped(c.opts[j].end as int, energy).0
    &&& cut.align == c.opts[j].align
    &&& cut.kind == c.kind
    &&& cut.text == c.text
    &&& cut.takes == c.takes
    &&& cut.sim == sim
}

/// Candidates are decided one at a time and none is lost. The one that comes
/// next is accepted exactly when it is no repeat whose takes sound less than
/// 0.55 alike and one of its alignments can be spliced; the first that can is
/// taken. Otherwise it is rejected. What was decided before stays as it was,
/// and a repeat that sounds alike and cannot be spliced is counted.
pub proof fn law_the_first_alignment_that_passes_is_taken(
    cands: Seq<CandidateView>,
    sims: Seq<i64>,
    order: Seq<usize>,
    n: int,
    energy: Seq<i64>,
    segs: Seq<Segment>,
)
    requires
        energy_fits(energy),
        candidates_fit(cands),
        0 <= n < order.len(),
        0 <= order[n] < cands.len(),
    ensures
        ({
            let v = decide_first(cands, sims, order, n, energy, segs);
            let w = decide_first(cands, sims, order, n + 1, energy, segs);
            let (c, sim) = (cands[order[n] as int], sims[order[n] as int]);
            let alike = c.kind is Repeat ==> sim >= 550_000;
            let fits = exists|j: int|
                0 <= j < c.opts.len() && can_splice(
                    #[trigger] c.opts[j],
                    energy,
                    segs,
                    last_cut_end(v),
                );
            if alike && fits {
                &&& w.accepted.len() == v.accepted.len() + 1
                &&& w.accepted.drop_last() == v.accepted
                &&& exists|j: int| #[trigger]
                    accepted_with(
                        w.accepted.last(),
                        c,
                        sim,
                        j,
                        energy,
                        segs,
                        last_cut_end(v),
                    )
                &&& w.rejected == v.rejected
                &&& w.clipped == v.clipped
            } else {
                &&& w.accepted == v.accepted
                &&& w.rejected.len() == v.rejected.len() + 1
                &&& w.rejected.drop_last() == v.rejected
                &&& w.rejected.last().kind == c.kind
                &&& w.rejected.last().start == c.opts[0].start
                &&& w.rejected.last().why is Similarity <==> !alike
                &&& w.clipped == v.clipped + (if alike && c.kind is Repeat {
                    1int
                } else {
                    0
                })
            }
        }),
{
    let v = decide_first(cands, sims, order, n, energy, segs);
    let w = decide_first(cands, sims, order, n + 1, energy, segs);
    let (c, sim) = (cands[order[n] as int], sims[order[n] as int]);
    let last_end = last_cut_end(v);
    assert(candidate_fits(c));
    lemma_first_that_can(c.opts, 0, Why::NoAlignment, energy, segs, last_end);
    lemma_why_is_no_similarity(c.opts, 0, Why::NoAlignment, energy, segs, last_end);
    assert(v.accepted.len() > 0 ==> v.accepted.last() == v.accepted[v.accepted.len() - 1]);
    let alike = c.kind is Repeat ==> sim >= 550_000;
    if alike {
        match place_from(c.opts, 0, Why::NoAlignment, energy, segs, last_end) {
            Ok(p) => {
                let j = choose|j: int|
                    0 <= j < c.opts.len() && can_splice(
                        #[trigger] c.opts[j],
                        energy,
                        segs,
                        last_end,
                    ) && p.start == snapped(c.opts[j].start as int, energy).0 && p.end == snapped(
                        c.opts[j].end as int,
                        energy,
                    ).0 && p.align == c.opts[j].align && (forall|i: int|
                        0 <= i < j ==> !can_splice(
                            #[trigger] c.opts[i],
                            energy,
                            segs,
                            last_end,
                        ));
                assert(can_splice(c.opts[j], energy, segs, last_end));
                assert(w.accepted.drop_last() =~= v.accepted);
                assert(accepted_with(w.accepted.last(), c, sim, j, energy, segs, last_end));
            },
            Err(_) => {
                assert(w.rejected.drop_last() =~= v.rejected);
            },
        }
    } else {
        assert(w.rejected.drop_last() =~= v.rejected);
    }
}

proof fn lemma_why_is_no_similarity(
    opts: Seq<Splice>,
    k: int,
    why: Why,
    energy: Seq<i64>,
    segs: Seq<Segment>,
    last_end: Option<i64>,
)
    requires
        why !is Similarity,
    ensures
        place_from(opts, k, why, energy, segs, last_end) matches Err(w) ==> w !is Similarity,
    decreases opts.len() - k,
{
    if k < opts.len() {
        match try_splice(opts[k], energy, segs, last_end) {
            Ok(_) => {},
            Err(w) => {
                lemma_why_is_no_similarity(opts, k + 1, w, energy, segs, last_end);
            },
        }
    }
}

/// The reason given is the first guard that fails: the length, the level at the
/// splice, the quiet around it, the distance from the cut before, the stretch
/// that plays as recorded.
pub proof fn law_the_first_guard_that_fails_is_named(
    o: Splice,
    energy: Seq<i64>,
    segs: Seq<Segment>,
    last_end: Option<i64>,
)
    requires
        near(o.start as int),
        near(o.end as int),
        energy_fits(energy),
        !can_splice(o, energy, segs, last_end),
    ensures
        ({
            let (s, e) = (snapped(o.start as int, energy).0, snapped(o.end as int, energy).0);
            let (p, q) = (snapped(o.start as int, energy).1, snapped(o.end as int, energy).1);
            let length = 150_000 <= e - s <= 9_500_000;
            let level = p <= -44_780_000 && q <= -44_780_000;
            let quiet = quiet_run(s, energy) >= 100_000 && quiet_run(e, energy) >= 100_000;
            let apart = last_end matches Some(t) ==> s >= t + 80_000;
            match try_splice(o, energy, segs, last_end) {
                Ok(_) => false,
                Err(Why::Duration { us }) => !length && us == e - s,
                Err(Why::Splice { level: l }) => length && !level && p <= l && q <= l && (l == p
                    || l == q),
                Err(Why::QuietRun { start_us, end_us }) => length && level && !quiet && start_us
                    == quiet_run(s, energy) && end_us == quiet_run(e, energy),
                Err(Why::Overlap) => length && level && quiet && !apart,
                Err(Why::NotNormal) => length && level && quiet && apart,
                Err(_) => false,
            }
        }),
{
    lemma_can_splice(o, energy, segs, last_end);
    lemma_snapped_near(o.start as int, energy);
    lemma_snapped_near(o.end as int, energy);
    let (s, e) = (snapped(o.start as int, energy).0, snapped(o.end as int, energy).0);
    crate::quiet::lemma_quiet_run(s, energy);
    crate::quiet::lemma_quiet_run(e, energy);
    crate::quiet::lemma_snapped_level(o.start as int, energy);
    crate::quiet::lemma_snapped_level(o.end as int, energy);
}

/// A word has a token exactly when it holds more than white space.
pub proof fn law_tokens_are_the_spoken_words(words: Seq<Word>)
    ensures
        forall|k: int|
            0 <= k < words.len() && trimmed((#[trigger] words[k]).text@).len() > 0 ==> exists|j: int|
                0 <= j < tokens_of(words).len() && is_token_of(
                    #[trigger] tokens_of(words)[j],
                    words[k],
                ),
        forall|j: int|
            0 <= j < tokens_of(words).len() ==> exists|k: int|
                0 <= k < words.len() && trimmed(words[k].text@).len() > 0 && is_token_of(
                    #[trigger] tokens_of(words)[j],
                    #[trigger] words[k],
                ),
    decreases words.len(),
{
    if words.len() > 0 {
        let front = words.drop_last();
        law_tokens_are_the_spoken_words(front);
        let (r, all) = (tokens_of(front), tokens_of(words));
        let n = words.len() - 1;
        assert forall|k: int|
            0 <= k < words.len() && trimmed((#[trigger] words[k]).text@).len()
                > 0 implies exists|j: int|
            0 <= j < all.len() && is_token_of(#[trigger] all[j], words[k]) by {
            if k < n {
                assert(front[k] == words[k]);
                let j = choose|j: int| 0 <= j < r.len() && is_token_of(#[trigger] r[j], front[k]);
                assert(all[j] == r[j]);
            } else {
                assert(is_token_of(all[all.len() - 1], words[n]));
            }
        }
        assert forall|j: int| 0 <= j < all.len() implies exists|k: int|
            0 <= k < words.len() && trimmed(words[k].text@).len() > 0 && is_token_of(
                #[trigger] all[j],
                #[trigger] words[k],
            ) by {
            if j < r.len() {
                assert(all[j] == r[j]);
                let k = choose|k: int|
                    0 <= k < front.len() && trimmed(front[k].text@).len() > 0 && is_token_of(
                        r[j],
                        #[trigger] front[k],
                    );
                assert(words[k] == front[k]);
            } else {
                assert(is_token_of(all[j], words[n]));
            }
        }
    }
}

/// The token carries the word's times, the word as it stands without the space
/// around it, and the word in lower case without the symbols around it.
pub open spec fn is_token_of(t: TokenView, w: Word) -> bool {
    &&& t.start == w.start
    &&& t.end == w.end
    &&& t.raw == trimmed(w.text@)
    &&& t.norm == lower(bare(trimmed(w.text@)))
}

proof fn lemma_parts_are_normal(g: Segment, cuts: Seq<CutView>, n: int)
    requires
        0 <= n <= cuts.len(),
    ensures
        forall|k: int|
            0 <= k < parts_upto(g, cuts, n).0.len() ==> (#[trigger] parts_upto(
                g,
                cuts,
                n,
            ).0[k]).speed.num == 1 && parts_upto(g, cuts, n).0[k].speed.den == 1,
    decreases n,
{
    if n > 0 {
        lemma_parts_are_normal(g, cuts, n - 1);
        let (p, q) = (parts_upto(g, cuts, n - 1).0, parts_upto(g, cuts, n).0);
        assert forall|k: int| 0 <= k < q.len() implies (#[trigger] q[k]).speed.num == 1
            && q[k].speed.den == 1 by {
            if k < p.len() {
                assert(q[k] == p[k]);
            }
        }
    }
}

/// Cutting leaves sped-up stretches as they are: each of them is still there,
/// whole and at its speed, and nothing else that is left is sped up.
pub proof fn law_cuts_leave_sped_up_stretches(segs: Seq<Segment>, cuts: Seq<CutView>, s: Segment)
    requires
        s.speed.num != s.speed.den,
    ensures
        after_cuts(segs, cuts).contains(s) <==> segs.contains(s),
    decreases segs.len(),
{
    let all = after_cuts(segs, cuts);
    if segs.len() > 0 {
        let front = segs.drop_last();
        let g = segs[segs.len() - 1];
        law_cuts_leave_sped_up_stretches(front, cuts, s);
        lemma_parts_are_normal(g, cuts, cuts.len() as int);
        let (a, b) = (after_cuts(front, cuts), parts_of(g, cuts));
        assert(all == a + b);
        if segs.contains(s) {
            let k = choose|k: int| 0 <= k < segs.len() && segs[k] == s;
            if k < front.len() {
                assert(front[k] == s);
                let j = choose|j: int| 0 <= j < a.len() && a[j] == s;
                assert(all[j] == s);
            } else {
                assert(b[0] == s);
                assert(all[a.len() as int] == s);
            }
        }
        if all.contains(s) {
            let k = choose|k: int| 0 <= k < all.len() && all[k] == s;
            if k < a.len() {
                assert(a[k] == s);
                let j = choose|j: int| 0 <= j < front.len() && front[j] == s;
                assert(segs[j] == s);
            } else {
                assert(b[k - a.len()] == s);
                if g.speed.is_normal() {
                    let (parts, cursor) = parts_upto(g, cuts, cuts.len() as int);
                    if k - a.len() < parts.len() {
                        assert(parts[k - a.len()] == s);
                    }
                }
                assert(segs[segs.len() - 1] == s);
            }
        }
    } else {
        assert(!all.contains(s));
        assert(!segs.contains(s));
    }
}

/// Candidates are decided in order of where each would start, those that would
/// start together in the order in which they were proposed, and none is left
/// out.
pub proof fn law_candidates_are_decided_in_order(cands: Seq<CandidateView>)
    requires
        cands.len() <= usize::MAX,
    ensures
        ({
            let order = order_of(start_keys(cands));
            &&& order.len() == cands.len()
            &&& forall|k: int| 0 <= k < order.len() ==> 0 <= #[trigger] order[k] < cands.len()
            &&& forall|i: int, j: int|
                0 <= i < j < order.len() ==> cands[#[trigger] order[i] as int].opts[0].start
                    <= cands[#[trigger] order[j] as int].opts[0].start
            &&& forall|i: int, j: int|
                0 <= i < j < order.len() && cands[#[trigger] order[i] as int].opts[0].start
                    == cands[#[trigger] order[j] as int].opts[0].start ==> order[i] < order[j]
        }),
{
    let keys = start_keys(cands);
    crate::order::lemma_an_order_exists(keys);
    let order = order_of(keys);
    assert forall|i: int, j: int| 0 <= i < j < order.len() implies cands[#[trigger] order[i] as int].opts[0].start
        <= cands[#[trigger] order[j] as int].opts[0].start by {
        assert(crate::order::before(keys, order[i] as int, order[j] as int));
    }
    assert forall|i: int, j: int|
        0 <= i < j < order.len() && cands[#[trigger] order[i] as int].opts[0].start
            == cands[#[trigger] order[j] as int].opts[0].start implies order[i] < order[j] by {
        assert(crate::order::before(keys, order[i] as int, order[j] as int));
    }
}

/// Every candidate is either accepted or rejected.
pub proof fn law_every_candidate_is_decided(
    cands: Seq<CandidateView>,
    sims: Seq<i64>,
    order: Seq<usize>,
    n: int,
    energy: Seq<i64>,
    segs: Seq<Segment>,
)
    requires
        0 <= n,
    ensures
        ({
            let v = decide_first(cands, sims, order, n, energy, segs);
            v.accepted.len() + v.rejected.len() == n
        }),
    decreases n,
{
    if n > 0 {
        law_every_candidate_is_decided(cands, sims, order, n - 1, energy, segs);
    }
}

} // verus!
