//! Timing and writing the caption file.
use vstd::prelude::*;

use crate::captions::{
    clen, law_pieces_keep_words, law_wrapping_keeps_words, lemma_pieces_len, pieces, split_pieces, words_fit, wrap, wrapped, Word, CPS, CUE_GAP_US,
    MAX_CUE, MAX_LINES, MIN_CUE_US, WRAP,
};
use crate::constants::TIME_MAX;
use crate::num::{decimal, law_padded_numbers_read_back, padded, push_decimal, push_padded, value};
use crate::order::{before, is_order, lemma_an_order_exists, order_of, stable_order};
use crate::plan::{
    law_a_played_moment_is_found_where_it_plays, law_output_time_never_goes_back,
    law_scaling_goes_to_the_nearest, lemma_quotient, lemma_scaled_grows, map_to_output,
    output_time, plan_in_order, scale_by, scaled, source_time, Plan,
};
use crate::text::{
    all_words, chars_of, find_char, index_from, is_space, join, joined, lemma_all_words_append,
    lemma_trimmed_ends, lemma_words_concat, lemma_words_trimmed, text_of, total_len, trim, trimmed, views, words,
};

verus! {

// ---------------------------------------------------------------------------
// Grouping words into cues
// ---------------------------------------------------------------------------
/// A caption with its time.
#[derive(Debug)]
pub struct Cue {
    pub start: i64,
    pub end: i64,
    pub text: String,
}

#[verifier::ext_equal]
pub struct CueView {
    pub start: i64,
    pub end: i64,
    pub text: Seq<char>,
}

impl View for Cue {
    type V = CueView;

    open spec fn view(&self) -> CueView {
        CueView { start: self.start, end: self.end, text: self.text@ }
    }
}

pub open spec fn cue_views(cues: Seq<Cue>) -> Seq<CueView> {
    Seq::new(cues.len(), |k: int| cues[k]@)
}

pub open spec fn cue_texts(cues: Seq<CueView>) -> Seq<Seq<char>> {
    Seq::new(cues.len(), |k: int| cues[k].text)
}

pub open spec fn word_texts(ws: Seq<Word>) -> Seq<Seq<char>> {
    Seq::new(ws.len(), |k: int| ws[k].text@)
}

pub open spec fn ends_sentence(t: Seq<char>) -> bool {
    t.len() > 0 && (t.last() == '.' || t.last() == '!' || t.last() == '?')
}

/// The cues closed so far, and the one being filled.
#[verifier::ext_equal]
pub struct Grouping {
    pub cues: Seq<CueView>,
    /// The text of the open cue; empty when none is open.
    pub buf: Seq<char>,
    pub start: i64,
    pub end: i64,
}

/// Groups words into cues: a cue closes at the end of a sentence, or when it
/// has grown too long without one.
pub open spec fn grouping(ws: Seq<Word>) -> Grouping
    decreases ws.len(),
{
    if ws.len() == 0 {
        Grouping { cues: Seq::empty(), buf: Seq::empty(), start: 0, end: 0 }
    } else {
        let g = grouping(ws.drop_last());
        let w = ws.last();
        let t = trimmed(w.text@);
        if t.len() == 0 {
            g
        } else {
            let start = if g.buf.len() == 0 {
                w.start
            } else {
                g.start
            };
            let buf = if g.buf.len() == 0 {
                t
            } else {
                g.buf + seq![' '] + t
            };
            if ends_sentence(t) || buf.len() >= MAX_CUE {
                Grouping {
                    cues: g.cues.push(CueView { start, end: w.end, text: trimmed(buf) }),
                    buf: Seq::empty(),
                    start,
                    end: w.end,
                }
            } else {
                Grouping { cues: g.cues, buf, start, end: w.end }
            }
        }
    }
}

/// All the cues of a transcript, the last one closed as it stands.
pub open spec fn grouped(ws: Seq<Word>) -> Seq<CueView> {
    let g = grouping(ws);
    if trimmed(g.buf).len() > 0 {
        g.cues.push(CueView { start: g.start, end: g.end, text: trimmed(g.buf) })
    } else {
        g.cues
    }
}

pub open spec fn cues_fit(cues: Seq<CueView>) -> bool {
    forall|k: int|
        0 <= k < cues.len() ==> -TIME_MAX <= (#[trigger] cues[k]).start <= TIME_MAX && -TIME_MAX
            <= cues[k].end <= TIME_MAX
}

fn last_char(s: &str) -> (c: char)
    requires
        s@.len() > 0,
    ensures
        c == s@.last(),
{
    let n: usize = s.unicode_len();
    s.get_char(n - 1)
}

/// Groups words into cues.
pub fn group_cues(ws: &Vec<Word>) -> (cues: Vec<Cue>)
    requires
        words_fit(ws@),
    ensures
        cue_views(cues@) == grouped(ws@),
        cues_fit(cue_views(cues@)),
{
    let mut cues: Vec<Cue> = Vec::new();
    let mut buf = String::new();
    let mut start: i64 = 0;
    let mut end: i64 = 0;
    let mut k: usize = 0;
    assert(cue_views(cues@) =~= Seq::<CueView>::empty());
    while k < ws.len()
        invariant
            k <= ws@.len(),
            words_fit(ws@),
            cues_fit(cue_views(cues@)),
            -TIME_MAX <= start <= TIME_MAX,
            -TIME_MAX <= end <= TIME_MAX,
            grouping(ws@.take(k as int)) == (Grouping {
                cues: cue_views(cues@),
                buf: buf@,
                start,
                end,
            }),
        decreases ws@.len() - k,
    {
        assert(ws@.take(k + 1).drop_last() =~= ws@.take(k as int));
        assert(ws@[k as int].wf());
        let t = trim(ws[k].text.as_str());
        if !t.as_str().is_empty() {
            let ghost before = cue_views(cues@);
            let ghost open = buf@;
            if buf.as_str().is_empty() {
                start = ws[k].start;
                buf = t.clone();
            } else {
                buf.push(' ');
                buf.append(t.as_str());
                assert(buf@ =~= open + seq![' '] + t@);
            }
            end = ws[k].end;
            let c: char = last_char(t.as_str());
            if c == '.' || c == '!' || c == '?' || clen(buf.as_str()) >= MAX_CUE {
                let cue = Cue { start, end, text: trim(buf.as_str()) };
                cues.push(cue);
                assert(cue_views(cues@) =~= before.push(cue@));
                buf = String::new();
                assert(buf@ =~= Seq::<char>::empty());
            }
            assert(grouping(ws@.take(k + 1)) =~= (Grouping {
                cues: cue_views(cues@),
                buf: buf@,
                start,
                end,
            }));
        }
        k += 1;
    }
    assert(ws@.take(k as int) =~= ws@);
    let rest = trim(buf.as_str());
    if !rest.as_str().is_empty() {
        let ghost before = cue_views(cues@);
        let cue = Cue { start, end, text: rest };
        cues.push(cue);
        assert(cue_views(cues@) =~= before.push(cue@));
    }
    cues
}

proof fn lemma_no_words(s: Seq<char>)
    requires
        trimmed(s).len() == 0,
    ensures
        words(s) == Seq::<Seq<char>>::empty(),
{
    lemma_words_trimmed(s);
    assert(trimmed(s) =~= Seq::<char>::empty());
    assert(words(Seq::<char>::empty()) =~= Seq::<Seq<char>>::empty());
}

proof fn lemma_grouping(ws: Seq<Word>)
    ensures
        all_words(cue_texts(grouping(ws).cues)) + words(grouping(ws).buf) == all_words(
            word_texts(ws),
        ),
    decreases ws.len(),
{
    if ws.len() > 0 {
        let front = ws.drop_last();
        let w = ws.last();
        lemma_grouping(front);
        let g = grouping(front);
        let h = grouping(ws);
        let t = trimmed(w.text@);
        assert(word_texts(ws).drop_last() =~= word_texts(front));
        assert(word_texts(ws).last() == w.text@);
        let a = all_words(cue_texts(g.cues));
        lemma_words_trimmed(w.text@);
        if t.len() == 0 {
            lemma_no_words(w.text@);
            assert(all_words(word_texts(ws)) =~= all_words(word_texts(front)));
        } else {
            let buf = if g.buf.len() == 0 {
                t
            } else {
                g.buf + seq![' '] + t
            };
            assert(words(buf) =~= words(g.buf) + words(t)) by {
                if g.buf.len() == 0 {
                    assert(g.buf =~= Seq::<char>::empty());
                    assert(words(g.buf) =~= Seq::<Seq<char>>::empty());
                } else {
                    lemma_words_concat(g.buf, ' ', t);
                }
            }
            assert(a + words(buf) =~= (a + words(g.buf)) + words(t));
            if ends_sentence(t) || buf.len() >= MAX_CUE {
                lemma_words_trimmed(buf);
                assert(cue_texts(h.cues).drop_last() =~= cue_texts(g.cues));
                assert(cue_texts(h.cues).last() == trimmed(buf));
                assert(words(Seq::<char>::empty()) =~= Seq::<Seq<char>>::empty());
                assert(all_words(cue_texts(h.cues)) + words(h.buf) =~= a + words(buf));
            }
        }
    } else {
        assert(words(Seq::<char>::empty()) =~= Seq::<Seq<char>>::empty());
        assert(cue_texts(grouping(ws).cues) =~= Seq::<Seq<char>>::empty());
        assert(word_texts(ws) =~= Seq::<Seq<char>>::empty());
        assert(all_words(Seq::<Seq<char>>::empty()) =~= Seq::<Seq<char>>::empty());
    }
}

/// The cues say what the transcript says: every word, in order.
pub proof fn law_cues_keep_words(ws: Seq<Word>)
    ensures
        all_words(cue_texts(grouped(ws))) == all_words(word_texts(ws)),
{
    lemma_grouping(ws);
    let g = grouping(ws);
    if trimmed(g.buf).len() > 0 {
        lemma_words_trimmed(g.buf);
        assert(cue_texts(grouped(ws)).drop_last() =~= cue_texts(g.cues));
        assert(cue_texts(grouped(ws)).last() == trimmed(g.buf));
    } else {
        lemma_no_words(g.buf);
        assert(all_words(cue_texts(g.cues)) + words(g.buf) =~= all_words(cue_texts(g.cues)));
    }
}

// ---------------------------------------------------------------------------
// Timing
// ---------------------------------------------------------------------------
/// A source time on the delivered timeline: through the plan, then stretched
/// to the measured duration.
pub open spec fn delivered_time(plan: Plan, measured: int, t: int) -> int {
    scaled(output_time(plan, t), measured, plan.out_duration_us as int)
}

/// The cue on the delivered timeline, no shorter than the floor.
pub open spec fn retimed(plan: Plan, measured: int, c: CueView) -> CueView {
    let s = delivered_time(plan, measured, c.start as int);
    let e = delivered_time(plan, measured, c.end as int);
    CueView {
        start: s as i64,
        end: (if e - s < MIN_CUE_US {
            s + MIN_CUE_US
        } else {
            e
        }) as i64,
        text: c.text,
    }
}

pub open spec fn all_retimed(plan: Plan, measured: int, cues: Seq<CueView>) -> Seq<CueView> {
    Seq::new(cues.len(), |k: int| retimed(plan, measured, cues[k]))
}

pub open spec fn cue_starts(cues: Seq<CueView>) -> Seq<i64> {
    Seq::new(cues.len(), |k: int| cues[k].start)
}

/// The cues in order of their start.
pub open spec fn by_start(cues: Seq<CueView>) -> Seq<CueView> {
    Seq::new(cues.len(), |k: int| cues[order_of(cue_starts(cues))[k] as int])
}

/// A cue that runs into the next ends a little before it. One that would fall
/// under the floor that way lasts as long as the floor, or until the next one
/// starts.
pub open spec fn end_before(c: CueView, next: CueView) -> CueView {
    let floor = c.start + MIN_CUE_US;
    let gap = next.start - CUE_GAP_US;
    if c.end > next.start {
        CueView {
            end: (if floor <= gap {
                gap
            } else if floor < next.start {
                floor
            } else {
                next.start as int
            }) as i64,
            ..c
        }
    } else {
        c
    }
}

pub open spec fn spaced(cues: Seq<CueView>) -> Seq<CueView> {
    Seq::new(
        cues.len(),
        |k: int|
            if k + 1 < cues.len() {
                end_before(cues[k], cues[k + 1])
            } else {
                cues[k]
            },
    )
}

/// Every cue of the transcript on the delivered timeline.
pub open spec fn timed(ws: Seq<Word>, plan: Plan, measured: int) -> Seq<CueView> {
    spaced(by_start(all_retimed(plan, measured, grouped(ws))))
}

/// Where the `k`-th piece of a cue starts: the cue's time is shared by
/// character count.
pub open spec fn piece_start(c: CueView, ps: Seq<Seq<char>>, k: int) -> int {
    let total = if total_len(ps) > 0 {
        total_len(ps) as int
    } else {
        1
    };
    c.start + scaled(c.end - c.start, total_len(ps.take(k)) as int, total)
}

/// The pieces of a cue, each with its share of the cue's time.
pub open spec fn shared(c: CueView) -> Seq<CueView> {
    let ps = pieces(c.text);
    Seq::new(
        ps.len(),
        |k: int|
            CueView {
                start: piece_start(c, ps, k) as i64,
                end: piece_start(c, ps, k + 1) as i64,
                text: ps[k],
            },
    )
}

pub open spec fn all_shared(cues: Seq<CueView>) -> Seq<CueView>
    decreases cues.len(),
{
    if cues.len() == 0 {
        Seq::empty()
    } else {
        all_shared(cues.drop_last()) + shared(cues.last())
    }
}

/// How long it takes to read `n` characters.
pub open spec fn reading_time(n: int) -> int {
    scaled(n, 1_000_000, CPS as int)
}

/// The latest a fragment may stay on screen.
pub open spec fn screen_limit(frags: Seq<CueView>, k: int, out_duration: int) -> int {
    if k + 1 < frags.len() {
        frags[k + 1].start as int
    } else {
        out_duration
    }
}

/// A fragment that is too short to read borrows from the gap ahead.
pub open spec fn held(frags: Seq<CueView>, k: int, out_duration: int) -> CueView {
    let f = frags[k];
    let need = reading_time(f.text.len() as int);
    let limit = screen_limit(frags, k, out_duration);
    if f.end - f.start < need {
        CueView {
            end: (if f.start + need < limit {
                f.start + need
            } else {
                limit
            }) as i64,
            ..f
        }
    } else {
        f
    }
}

pub open spec fn all_held(frags: Seq<CueView>, out_duration: int) -> Seq<CueView> {
    Seq::new(frags.len(), |k: int| held(frags, k, out_duration))
}

/// Every fragment stays up for its reading time, or until what follows needs
/// the screen.
pub proof fn law_readable(frags: Seq<CueView>, out_duration: int, k: int)
    requires
        0 <= k < frags.len(),
        -TIME_MAX <= out_duration <= 2 * TIME_MAX,
        forall|j: int|
            0 <= j < frags.len() ==> -TIME_MAX <= (#[trigger] frags[j]).start <= 2 * TIME_MAX,
    ensures
        all_held(frags, out_duration)[k].start == frags[k].start,
        all_held(frags, out_duration)[k].text == frags[k].text,
        ({
            let f = all_held(frags, out_duration)[k];
            ||| f.end - f.start >= reading_time(f.text.len() as int)
            ||| f.end == screen_limit(frags, k, out_duration)
        }),
{
    let n = frags[k].text.len() as int;
    lemma_quotient(2 * n * 1_000_000 + 18, 36, reading_time(n));
    if k + 1 < frags.len() {
        assert(-TIME_MAX <= frags[k + 1].start <= 2 * TIME_MAX);
    }
    assert(-TIME_MAX <= frags[k].start <= 2 * TIME_MAX);
}

/// The captions: every fragment on the delivered timeline.
pub open spec fn captions_of(ws: Seq<Word>, plan: Plan, measured: int) -> Seq<CueView> {
    all_held(all_shared(timed(ws, plan, measured)), measured)
}

// ---------------------------------------------------------------------------
// The file
// ---------------------------------------------------------------------------
/// A time as `HH:MM:SS,mmm`.
pub open spec fn timestamp(t: int) -> Seq<char> {
    let ms = if t < 0 {
        0nat
    } else {
        ((t + 500) / 1000) as nat
    };
    padded(ms / 3_600_000, 2) + seq![':'] + padded((ms / 60_000) % 60, 2) + seq![':'] + padded(
        (ms / 1000) % 60,
        2,
    ) + seq![','] + padded(ms % 1000, 3)
}

/// The lines that a fragment shows: no more than the screen has room for.
pub open spec fn shown_lines(text: Seq<char>) -> Seq<Seq<char>> {
    let lines = wrapped(text, WRAP as int);
    lines.take(
        if lines.len() < MAX_LINES {
            lines.len() as int
        } else {
            MAX_LINES as int
        },
    )
}

/// What is shown of a fragment is how it begins, word for word. One that wraps
/// to no more lines than there is room for is shown whole; what wraps past them
/// is left out.
pub proof fn law_shown_lines_begin_the_text(text: Seq<char>)
    ensures
        all_words(shown_lines(text)).is_prefix_of(words(text)),
        wrapped(text, WRAP as int).len() <= MAX_LINES ==> all_words(shown_lines(text)) == words(
            text,
        ),
{
    let lines = wrapped(text, WRAP as int);
    let shown = shown_lines(text);
    law_wrapping_keeps_words(text, WRAP as int);
    let rest = lines.skip(shown.len() as int);
    assert(shown + rest =~= lines);
    lemma_all_words_append(shown, rest);
    if lines.len() <= MAX_LINES {
        assert(shown =~= lines);
    }
}

/// One numbered entry of the file.
pub open spec fn entry(n: nat, f: CueView) -> Seq<char> {
    decimal(n) + seq!['\n'] + timestamp(f.start as int) + " --> "@ + timestamp(f.end as int) + seq![
        '\n',
    ] + joined(shown_lines(f.text), seq!['\n']) + seq!['\n', '\n']
}

/// The lines of text that the file shows, entry by entry.
pub open spec fn file_lines(frags: Seq<CueView>) -> Seq<Seq<char>>
    decreases frags.len(),
{
    if frags.len() == 0 {
        Seq::empty()
    } else {
        file_lines(frags.drop_last()) + shown_lines(frags.last().text)
    }
}

/// The whole file.
pub open spec fn srt(frags: Seq<CueView>) -> Seq<char>
    decreases frags.len(),
{
    if frags.len() == 0 {
        Seq::empty()
    } else {
        srt(frags.drop_last()) + entry(frags.len(), frags.last())
    }
}

/// Microseconds to `HH:MM:SS,mmm`.
pub fn ts(t: i64) -> (r: String)
    requires
        t <= 4 * TIME_MAX,
    ensures
        r@ == timestamp(t as int),
{
    let ms: u64 = if t < 0 {
        0
    } else {
        ((t + 500) / 1000) as u64
    };
    let mut r = String::new();
    push_padded(&mut r, ms / 3_600_000, 2);
    r.push(':');
    push_padded(&mut r, (ms / 60_000) % 60, 2);
    r.push(':');
    push_padded(&mut r, (ms / 1000) % 60, 2);
    r.push(',');
    push_padded(&mut r, ms % 1000, 3);
    assert(r@ =~= timestamp(t as int));
    r
}

/// A cue on the timeline: it starts no earlier than zero, and does not end
/// before it starts.
pub open spec fn on_timeline(c: CueView) -> bool {
    0 <= c.start <= TIME_MAX && c.start <= c.end <= TIME_MAX + MIN_CUE_US
}

pub open spec fn all_on_timeline(cues: Seq<CueView>) -> bool {
    forall|k: int| 0 <= k < cues.len() ==> on_timeline(#[trigger] cues[k])
}

/// Scaling a part of the whole gives a part of the scaled whole.
proof fn lemma_scaled_part(x: int, num: int, den: int)
    requires
        0 <= x <= den,
        0 <= num,
        0 < den,
    ensures
        0 <= scaled(x, num, den) <= num,
{
    let q = scaled(x, num, den);
    lemma_quotient(2 * x * num + den, 2 * den, q);
    assert(0 <= q <= num) by (nonlinear_arith)
        requires
            2 * den * q <= 2 * x * num + den < 2 * den * q + 2 * den,
            0 <= x <= den,
            0 <= num,
            0 < den,
    ;
}

fn retime(plan: &Plan, measured_us: i64, c: &Cue) -> (r: Cue)
    requires
        plan.wf(),
        0 < plan.out_duration_us,
        0 < measured_us <= TIME_MAX,
    ensures
        r@ == retimed(*plan, measured_us as int, c@),
        on_timeline(r@),
{
    let a: i64 = map_to_output(plan, c.start);
    let b: i64 = map_to_output(plan, c.end);
    proof {
        lemma_scaled_part(a as int, measured_us as int, plan.out_duration_us as int);
        lemma_scaled_part(b as int, measured_us as int, plan.out_duration_us as int);
    }
    let s: i64 = scale_by(a, measured_us, plan.out_duration_us) as i64;
    let e: i64 = scale_by(b, measured_us, plan.out_duration_us) as i64;
    let end: i64 = if e - s < MIN_CUE_US {
        s + MIN_CUE_US
    } else {
        e
    };
    Cue { start: s, end, text: c.text.clone() }
}

fn retime_all(plan: &Plan, measured_us: i64, cues: &Vec<Cue>) -> (out: Vec<Cue>)
    requires
        plan.wf(),
        0 < plan.out_duration_us,
        0 < measured_us <= TIME_MAX,
    ensures
        cue_views(out@) == all_retimed(*plan, measured_us as int, cue_views(cues@)),
        all_on_timeline(cue_views(out@)),
{
    let ghost cv = cue_views(cues@);
    let mut out: Vec<Cue> = Vec::new();
    let mut k: usize = 0;
    while k < cues.len()
        invariant
            k <= cues@.len(),
            plan.wf(),
            0 < plan.out_duration_us,
            0 < measured_us <= TIME_MAX,
            cv == cue_views(cues@),
            cue_views(out@) == all_retimed(*plan, measured_us as int, cv.take(k as int)),
            all_on_timeline(cue_views(out@)),
        decreases cues@.len() - k,
    {
        let ghost before = cue_views(out@);
        let c = retime(plan, measured_us, &cues[k]);
        out.push(c);
        assert(cue_views(out@) =~= before.push(c@));
        k += 1;
        assert(cue_views(out@) =~= all_retimed(*plan, measured_us as int, cv.take(k as int)));
    }
    assert(cv.take(k as int) =~= cv);
    out
}

fn sort_and_space(cues: &Vec<Cue>) -> (out: Vec<Cue>)
    requires
        all_on_timeline(cue_views(cues@)),
    ensures
        cue_views(out@) == spaced(by_start(cue_views(cues@))),
        all_on_timeline(cue_views(out@)),
{
    let ghost cv = cue_views(cues@);
    let n: usize = cues.len();
    let mut keys: Vec<i64> = Vec::new();
    let mut i: usize = 0;
    while i < n
        invariant
            i <= n == cues@.len(),
            cv == cue_views(cues@),
            keys@ == cue_starts(cv.take(i as int)),
        decreases n - i,
    {
        keys.push(cues[i].start);
        i += 1;
        assert(keys@ =~= cue_starts(cv.take(i as int)));
    }
    assert(cv.take(i as int) =~= cv);
    let order = stable_order(&keys);
    let ghost sorted = by_start(cv);
    let mut out: Vec<Cue> = Vec::new();
    let mut k: usize = 0;
    while k < n
        invariant
            k <= n == cues@.len(),
            cv == cue_views(cues@),
            all_on_timeline(cv),
            order@.len() == n,
            order@ == order_of(cue_starts(cv)),
            is_order(cue_starts(cv), order@),
            forall|j: int| 0 <= j < n ==> 0 <= #[trigger] order@[j] < n,
            sorted == by_start(cv),
            cue_views(out@) == spaced(sorted).take(k as int),
            all_on_timeline(cue_views(out@)),
        decreases n - k,
    {
        let ghost done = cue_views(out@);
        let c = &cues[order[k]];
        assert(sorted[k as int] == cv[order@[k as int] as int]);
        assert(on_timeline(cv[order@[k as int] as int]));
        assert(c@ == sorted[k as int]);
        let mut end: i64 = c.end;
        if n - k > 1 {
            let next: i64 = cues[order[k + 1]].start;
            assert(sorted[k + 1] == cv[order@[k + 1] as int]);
            assert(on_timeline(cv[order@[k + 1] as int]));
            assert(before(cue_starts(cv), order@[k as int] as int, order@[k + 1] as int));
            if c.end > next {
                let floor: i64 = c.start + MIN_CUE_US;
                let gap: i64 = next - CUE_GAP_US;
                end = if floor <= gap {
                    gap
                } else if floor < next {
                    floor
                } else {
                    next
                };
            }
        }
        let r = Cue { start: c.start, end, text: c.text.clone() };
        assert(r@ == spaced(sorted)[k as int]);
        out.push(r);
        assert(cue_views(out@) =~= done.push(r@));
        k += 1;
        assert(cue_views(out@) =~= spaced(sorted).take(k as int));
    }
    assert(spaced(sorted).take(k as int) =~= spaced(sorted));
    out
}

fn share_of(span: i64, part: usize, total: usize) -> (r: i64)
    requires
        0 <= span <= 2 * TIME_MAX,
        part <= total,
        0 < total,
    ensures
        r == scaled(span as int, part as int, total as int),
        0 <= r <= span,
{
    let ghost (gs, gp, gt) = (span as int, part as int, total as int);
    proof {
        let q = scaled(gs, gp, gt);
        assert(2 * gs * gp == 2 * gp * gs) by (nonlinear_arith);
        lemma_scaled_part(gp, gs, gt);
        assert(0 <= gs * gp <= 2_000_000_000_000_000_000 * 0x1_0000_0000_0000_0000)
            by (nonlinear_arith)
            requires
                0 <= gs <= 2_000_000_000_000_000_000,
                0 <= gp <= 0x1_0000_0000_0000_0000,
        ;
        assert(2 * gs * gp == 2 * (gs * gp)) by (nonlinear_arith);
    }
    let a: i128 = 2 * (span as i128 * part as i128) + total as i128;
    let b: i128 = 2 * total as i128;
    (a / b) as i64
}

/// Splits a cue into pieces and shares its time among them.
fn share(c: &Cue) -> (out: Vec<Cue>)
    requires
        on_timeline(c@),
    ensures
        cue_views(out@) == shared(c@),
        forall|k: int|
            0 <= k < out@.len() ==> c.start <= (#[trigger] cue_views(out@)[k]).start <= c.end,
{
    let ps = split_pieces(c.text.as_str());
    let ghost pv = views(ps@);
    let len: usize = clen(c.text.as_str());
    let count: usize = ps.len();
    proof {
        lemma_pieces_len(c@.text);
        if count == 0 {
            assert(total_len(pv) == 0);
        }
    }
    let mut total: usize = 0;
    let mut i: usize = 0;
    assert(pv.take(0) =~= Seq::<Seq<char>>::empty());
    while i < ps.len()
        invariant
            i <= ps@.len(),
            pv == views(ps@),
            total_len(pv) <= usize::MAX,
            total == total_len(pv.take(i as int)),
        decreases ps@.len() - i,
    {
        assert(pv.take(i + 1).drop_last() =~= pv.take(i as int));
        assert(pv[i as int] == ps@[i as int]@);
        proof {
            lemma_total_len_take(pv, i + 1);
        }
        total = total + clen(ps[i].as_str());
        i += 1;
    }
    assert(pv.take(i as int) =~= pv);
    let whole: usize = if total > 0 {
        total
    } else {
        1
    };
    let span: i64 = c.end - c.start;
    let mut out: Vec<Cue> = Vec::new();
    let mut before: usize = 0;
    let mut k: usize = 0;
    while k < ps.len()
        invariant
            k <= ps@.len(),
            pv == views(ps@),
            pv == pieces(c@.text),
            total == total_len(pv),
            whole == (if total > 0 {
                total
            } else {
                1
            }),
            before == total_len(pv.take(k as int)),
            on_timeline(c@),
            span == c.end - c.start,
            cue_views(out@) == shared(c@).take(k as int),
            forall|j: int|
                0 <= j < out@.len() ==> c.start <= (#[trigger] cue_views(out@)[j]).start <= c.end,
        decreases ps@.len() - k,
    {
        let ghost done = cue_views(out@);
        assert(pv.take(k + 1).drop_last() =~= pv.take(k as int));
        assert(pv[k as int] == ps@[k as int]@);
        proof {
            lemma_total_len_take(pv, k as int);
            lemma_total_len_take(pv, k + 1);
        }
        let after: usize = before + clen(ps[k].as_str());
        let r = Cue {
            start: c.start + share_of(span, before, whole),
            end: c.start + share_of(span, after, whole),
            text: ps[k].clone(),
        };
        assert(r@ == shared(c@)[k as int]);
        out.push(r);
        assert(cue_views(out@) =~= done.push(r@));
        before = after;
        k += 1;
        assert(cue_views(out@) =~= shared(c@).take(k as int));
    }
    assert(shared(c@).take(k as int) =~= shared(c@));
    out
}

proof fn lemma_total_len_take(parts: Seq<Seq<char>>, k: int)
    requires
        0 <= k <= parts.len(),
    ensures
        total_len(parts.take(k)) <= total_len(parts),
    decreases parts.len(),
{
    if k < parts.len() {
        lemma_total_len_take(parts.drop_last(), k);
        assert(parts.drop_last().take(k) =~= parts.take(k));
    } else {
        assert(parts.take(k) =~= parts);
    }
}

/// Fragments lie within the times the library handles.
pub open spec fn frags_fit(frags: Seq<CueView>) -> bool {
    forall|k: int|
        0 <= k < frags.len() ==> 0 <= (#[trigger] frags[k]).start <= 2 * TIME_MAX && 0
            <= frags[k].end <= 2 * TIME_MAX
}

fn share_all(cues: &Vec<Cue>) -> (out: Vec<Cue>)
    requires
        all_on_timeline(cue_views(cues@)),
    ensures
        cue_views(out@) == all_shared(cue_views(cues@)),
        frags_fit(cue_views(out@)),
{
    let ghost cv = cue_views(cues@);
    let mut out: Vec<Cue> = Vec::new();
    let mut k: usize = 0;
    assert(cue_views(out@) =~= Seq::<CueView>::empty());
    while k < cues.len()
        invariant
            k <= cues@.len(),
            cv == cue_views(cues@),
            all_on_timeline(cv),
            cue_views(out@) == all_shared(cv.take(k as int)),
            frags_fit(cue_views(out@)),
        decreases cues@.len() - k,
    {
        assert(cv.take(k + 1).drop_last() =~= cv.take(k as int));
        assert(on_timeline(cv[k as int]));
        let ghost before = cue_views(out@);
        let mut more = share(&cues[k]);
        let ghost mv = cue_views(more@);
        proof {
            lemma_shared_fit(cv[k as int]);
        }
        out.append(&mut more);
        assert(cue_views(out@) =~= before + mv);
        k += 1;
    }
    assert(cv.take(k as int) =~= cv);
    out
}

/// The shares of a cue lie inside the cue.
proof fn lemma_shared_fit(c: CueView)
    requires
        on_timeline(c),
    ensures
        forall|k: int|
            0 <= k < shared(c).len() ==> c.start <= (#[trigger] shared(c)[k]).start && shared(
                c,
            )[k].start <= shared(c)[k].end <= c.end,
        in_order(shared(c)),
{
    let ps = pieces(c.text);
    let total = if total_len(ps) > 0 {
        total_len(ps) as int
    } else {
        1
    };
    let span = c.end - c.start;
    assert forall|k: int| 0 <= k < shared(c).len() implies c.start <= (
    #[trigger] shared(c)[k]).start && shared(c)[k].start <= shared(c)[k].end <= c.end by {
        lemma_total_len_take(ps, k);
        lemma_total_len_take(ps, k + 1);
        let a = total_len(ps.take(k)) as int;
        let b = total_len(ps.take(k + 1)) as int;
        assert(ps.take(k + 1).drop_last() =~= ps.take(k));
        assert(a <= b <= total);
        assert(2 * span * a == 2 * a * span) by (nonlinear_arith);
        assert(2 * span * b == 2 * b * span) by (nonlinear_arith);
        lemma_scaled_part(a, span, total);
        lemma_scaled_part(b, span, total);
        lemma_scaled_grows(a, b, span, total);
    }
    assert forall|k: int, l: int| 0 <= k < l < shared(c).len() implies (#[trigger] shared(c)[k]).end
        <= (#[trigger] shared(c)[l]).start by {
        lemma_total_len_take(ps, l);
        lemma_total_len_take(ps.take(l), k + 1);
        assert(ps.take(l).take(k + 1) =~= ps.take(k + 1));
        let a = total_len(ps.take(k + 1)) as int;
        let b = total_len(ps.take(l)) as int;
        assert(2 * span * a == 2 * a * span) by (nonlinear_arith);
        assert(2 * span * b == 2 * b * span) by (nonlinear_arith);
        lemma_scaled_part(a, span, total);
        lemma_scaled_part(b, span, total);
        lemma_scaled_grows(a, b, span, total);
    }
}

// ---------------------------------------------------------------------------
// One caption at a time
// ---------------------------------------------------------------------------
/// No cue ends before it starts, and each starts no earlier than the ones before
/// it have ended.
pub open spec fn in_order(cues: Seq<CueView>) -> bool {
    &&& forall|k: int| 0 <= k < cues.len() ==> (#[trigger] cues[k]).start <= cues[k].end
    &&& forall|k: int, l: int|
        0 <= k < l < cues.len() ==> (#[trigger] cues[k]).end <= (#[trigger] cues[l]).start
}

/// Spacing takes the overlaps out of cues that come in order of their start.
proof fn lemma_spaced_in_order(cues: Seq<CueView>)
    requires
        all_on_timeline(cues),
        forall|i: int, j: int|
            0 <= i < j < cues.len() ==> (#[trigger] cues[i]).start <= (#[trigger] cues[j]).start,
    ensures
        in_order(spaced(cues)),
        all_on_timeline(spaced(cues)),
{
    let s = spaced(cues);
    assert forall|k: int| 0 <= k < s.len() implies on_timeline(#[trigger] s[k]) && (k + 1
        < s.len() ==> s[k].end <= cues[k + 1].start) by {
        assert(on_timeline(cues[k]));
        if k + 1 < s.len() {
            assert(on_timeline(cues[k + 1]));
            assert(cues[k].start <= cues[k + 1].start);
        }
    }
    assert forall|k: int, l: int| 0 <= k < l < s.len() implies (#[trigger] s[k]).end <= (
    #[trigger] s[l]).start by {
        if k + 1 < l {
            assert(cues[k + 1].start <= cues[l].start);
        }
    }
}

/// Sharing cues out among their pieces keeps them in order.
proof fn lemma_shared_in_order(cues: Seq<CueView>)
    requires
        in_order(cues),
        all_on_timeline(cues),
    ensures
        in_order(all_shared(cues)),
        frags_fit(all_shared(cues)),
        forall|k: int|
            0 <= k < all_shared(cues).len() ==> cues.len() > 0 && (#[trigger] all_shared(
                cues,
            )[k]).end <= cues.last().end,
    decreases cues.len(),
{
    if cues.len() > 0 {
        let front = cues.drop_last();
        let c = cues.last();
        assert(on_timeline(cues[cues.len() - 1]));
        assert forall|k: int| 0 <= k < front.len() implies on_timeline(#[trigger] front[k]) by {
            assert(on_timeline(cues[k]));
        }
        assert(in_order(front)) by {
            assert forall|k: int| 0 <= k < front.len() implies (#[trigger] front[k]).start
                <= front[k].end by {
                assert(cues[k].start <= cues[k].end);
            }
        }
        lemma_shared_in_order(front);
        lemma_shared_fit(c);
        let (a, b) = (all_shared(front), shared(c));
        let s = all_shared(cues);
        assert(s == a + b);
        if front.len() > 0 {
            assert(cues[front.len() - 1].end <= cues[cues.len() - 1].start);
        }
        assert forall|k: int| 0 <= k < s.len() implies 0 <= (#[trigger] s[k]).start <= s[k].end
            && s[k].end <= c.end by {
            if k < a.len() {
                assert(s[k] == a[k]);
            } else {
                assert(s[k] == b[k - a.len()]);
            }
        }
        assert forall|k: int, l: int| 0 <= k < l < s.len() implies (#[trigger] s[k]).end <= (
        #[trigger] s[l]).start by {
            if l < a.len() {
                assert(a[k].end <= a[l].start);
            } else if k >= a.len() {
                assert(b[k - a.len()].end <= b[l - a.len()].start);
            } else {
                assert(a[k].end <= front.last().end);
                assert(c.start <= b[l - a.len()].start);
            }
        }
    }
}

/// A delivered time lies inside the delivered programme.
pub proof fn lemma_delivered(plan: Plan, measured: int, t: int)
    requires
        plan.wf(),
        0 < plan.out_duration_us,
        0 < measured <= TIME_MAX,
    ensures
        0 <= delivered_time(plan, measured, t) <= measured,
{
    law_output_time_never_goes_back(plan, t, t);
    lemma_scaled_part(output_time(plan, t), measured, plan.out_duration_us as int);
}

/// The captions come one at a time: no two overlap, and none ends before it
/// starts but a last one that starts past the end of the programme.
pub proof fn law_captions_do_not_overlap(ws: Seq<Word>, plan: Plan, measured: int)
    requires
        plan.wf(),
        0 < plan.out_duration_us,
        0 < measured <= TIME_MAX,
        grouped(ws).len() <= usize::MAX,
    ensures
        ({
            let s = captions_of(ws, plan, measured);
            &&& forall|k: int, l: int|
                0 <= k < l < s.len() ==> (#[trigger] s[k]).end <= (#[trigger] s[l]).start
            &&& forall|k: int|
                0 <= k < s.len() && (k < s.len() - 1 || s[k].start <= measured) ==> (
                #[trigger] s[k]).start <= s[k].end
        }),
{
    let moved = all_retimed(plan, measured, grouped(ws));
    assert forall|k: int| 0 <= k < moved.len() implies on_timeline(#[trigger] moved[k]) by {
        lemma_delivered(plan, measured, grouped(ws)[k].start as int);
        lemma_delivered(plan, measured, grouped(ws)[k].end as int);
    }
    let keys = cue_starts(moved);
    let order = order_of(keys);
    lemma_an_order_exists(keys);
    let sorted = by_start(moved);
    assert forall|k: int| 0 <= k < sorted.len() implies on_timeline(#[trigger] sorted[k]) by {
        assert(on_timeline(moved[order[k] as int]));
    }
    assert forall|i: int, j: int| 0 <= i < j < sorted.len() implies (#[trigger] sorted[i]).start
        <= (#[trigger] sorted[j]).start by {
        assert(before(keys, order[i] as int, order[j] as int));
    }
    lemma_spaced_in_order(sorted);
    let frags = all_shared(spaced(sorted));
    lemma_shared_in_order(spaced(sorted));
    let s = all_held(frags, measured);
    assert forall|k: int| 0 <= k < s.len() implies (s[k].start <= (#[trigger] s[k]).end || k
        == s.len() - 1 && s[k].start > measured) && (k + 1 < s.len() ==> s[k].end <= frags[k
        + 1].start) by {
        assert(frags[k].start <= frags[k].end);
        let len = frags[k].text.len() as int;
        lemma_quotient(2 * len * 1_000_000 + 18, 36, reading_time(len));
        if k + 1 < s.len() {
            assert(frags[k].end <= frags[k + 1].start);
        }
    }
    assert forall|k: int, l: int| 0 <= k < l < s.len() implies (#[trigger] s[k]).end <= (
    #[trigger] s[l]).start by {
        if k + 1 < l {
            assert(frags[k + 1].end <= frags[l].start);
            assert(frags[k + 1].start <= frags[k + 1].end);
        }
    }
}

fn hold_all(frags: &Vec<Cue>, out_duration_us: i64) -> (out: Vec<Cue>)
    requires
        frags_fit(cue_views(frags@)),
        0 <= out_duration_us <= TIME_MAX,
    ensures
        cue_views(out@) == all_held(cue_views(frags@), out_duration_us as int),
        frags_fit(cue_views(out@)),
{
    let ghost fv = cue_views(frags@);
    let n: usize = frags.len();
    let mut out: Vec<Cue> = Vec::new();
    let mut k: usize = 0;
    while k < n
        invariant
            k <= n == frags@.len(),
            fv == cue_views(frags@),
            frags_fit(fv),
            0 <= out_duration_us <= TIME_MAX,
            cue_views(out@) == all_held(fv, out_duration_us as int).take(k as int),
            frags_fit(cue_views(out@)),
        decreases n - k,
    {
        let ghost before = cue_views(out@);
        let f = &frags[k];
        assert(fv[k as int] == f@);
        let len: usize = clen(f.text.as_str());
        assert(len <= 0xffff_ffff_ffff_ffff);
        let need: i128 = (2 * (len as i128 * 1_000_000) + 18) / 36;
        assert(need == reading_time(len as int)) by {
            assert(2 * len * 1_000_000 == 2 * (len * 1_000_000));
        }
        let mut end: i64 = f.end;
        if ((f.end - f.start) as i128) < need {
            let limit: i64 = if n - k > 1 {
                assert(fv[k + 1] == frags@[k + 1]@);
                frags[k + 1].start
            } else {
                out_duration_us
            };
            end = if f.start as i128 + need < limit as i128 {
                (f.start as i128 + need) as i64
            } else {
                limit
            };
        }
        let r = Cue { start: f.start, end, text: f.text.clone() };
        assert(r@ == held(fv, k as int, out_duration_us as int));
        out.push(r);
        assert(cue_views(out@) =~= before.push(r@));
        k += 1;
        assert(cue_views(out@) =~= all_held(fv, out_duration_us as int).take(k as int));
    }
    assert(all_held(fv, out_duration_us as int).take(k as int) =~= all_held(
        fv,
        out_duration_us as int,
    ));
    out
}

fn push_entry(out: &mut String, n: usize, f: &Cue)
    requires
        0 <= f.start <= 2 * TIME_MAX,
        0 <= f.end <= 2 * TIME_MAX,
    ensures
        final(out)@ == old(out)@ + entry(n as nat, f@),
{
    let mut lines = wrap(f.text.as_str(), WRAP);
    if lines.len() > MAX_LINES {
        lines.truncate(MAX_LINES);
    }
    assert(views(lines@) =~= shown_lines(f.text@));
    let body = join(&lines, "\n");
    proof {
        reveal_strlit("\n");
        reveal_strlit("\n\n");
        assert("\n"@ =~= seq!['\n']);
        assert("\n\n"@ =~= seq!['\n', '\n']);
    }
    push_decimal(out, n as u64);
    out.append("\n");
    out.append(ts(f.start).as_str());
    out.append(" --> ");
    out.append(ts(f.end).as_str());
    out.append("\n");
    out.append(body.as_str());
    out.append("\n\n");
    assert(out@ =~= old(out)@ + entry(n as nat, f@));
}

/// Builds the caption file. `measured_us` is how long the delivered file really
/// is: the render runs a touch long, so the cues stretch to match. Returns the
/// text and the number of entries.
pub fn write_srt(ws: &Vec<Word>, plan: &Plan, measured_us: i64) -> (r: (String, usize))
    requires
        words_fit(ws@),
        plan.wf(),
        0 < plan.out_duration_us,
        0 < measured_us <= TIME_MAX,
    ensures
        r.0@ == srt(captions_of(ws@, *plan, measured_us as int)),
        r.1 == captions_of(ws@, *plan, measured_us as int).len(),
{
    let cues = group_cues(ws);
    let placed = retime_all(plan, measured_us, &cues);
    let ordered = sort_and_space(&placed);
    let shares = share_all(&ordered);
    let frags = hold_all(&shares, measured_us);
    let ghost fv = cue_views(frags@);
    let mut out = String::new();
    let mut k: usize = 0;
    assert(fv.take(0) =~= Seq::<CueView>::empty());
    assert(out@ =~= srt(fv.take(0)));
    while k < frags.len()
        invariant
            k <= frags@.len(),
            fv == cue_views(frags@),
            frags_fit(fv),
            out@ == srt(fv.take(k as int)),
        decreases frags@.len() - k,
    {
        assert(fv.take(k + 1).drop_last() =~= fv.take(k as int));
        assert(fv[k as int] == frags@[k as int]@);
        push_entry(&mut out, k + 1, &frags[k]);
        k += 1;
    }
    assert(fv.take(k as int) =~= fv);
    (out, frags.len())
}

/// The shares of a cue are laid end to end and fill the cue.
pub proof fn law_pieces_fill_the_cue(c: CueView)
    requires
        on_timeline(c),
        total_len(pieces(c.text)) > 0,
    ensures
        shared(c).len() > 0,
        shared(c)[0].start == c.start,
        shared(c).last().end == c.end,
        forall|k: int, l: int|
            0 <= k && l == k + 1 && l < shared(c).len() ==> (#[trigger] shared(c)[k]).end == (
            #[trigger] shared(c)[l]).start,
{
    let ps = pieces(c.text);
    let n = ps.len() as int;
    let total = total_len(ps) as int;
    let span = c.end - c.start;
    assert(n > 0);
    assert(ps.take(0) =~= Seq::<Seq<char>>::empty());
    assert(ps.take(n) =~= ps);
    assert(scaled(span, 0, total) == 0) by {
        assert(2 * span * 0 == 0);
        lemma_quotient(total, 2 * total, scaled(span, 0, total));
        let q = scaled(span, 0, total);
        assert(q == 0) by (nonlinear_arith)
            requires
                2 * total * q <= total < 2 * total * q + 2 * total,
                total > 0,
        ;
    }
    assert(scaled(span, total, total) == span) by {
        let q = scaled(span, total, total);
        lemma_quotient(2 * span * total + total, 2 * total, q);
        assert(q == span) by (nonlinear_arith)
            requires
                2 * total * q <= 2 * span * total + total < 2 * total * q + 2 * total,
                total > 0,
        ;
    }
}

// ---------------------------------------------------------------------------
// Reading a caption file back
// ---------------------------------------------------------------------------
/// The first index at or after `i` where a blank line starts, or the length.
pub open spec fn blank_from(s: Seq<char>, i: int) -> int
    decreases s.len() - i,
{
    if i + 1 >= s.len() {
        s.len() as int
    } else if s[i] == '\n' && s[i + 1] == '\n' {
        i
    } else {
        blank_from(s, i + 1)
    }
}

/// A blank line that is found lies ahead, and both its characters are there.
pub proof fn lemma_blank_from(s: Seq<char>, i: int)
    ensures
        blank_from(s, i) < s.len() ==> i <= blank_from(s, i) && blank_from(s, i) + 2 <= s.len(),
    decreases s.len() - i,
{
    if i + 1 < s.len() && !(s[i] == '\n' && s[i + 1] == '\n') {
        lemma_blank_from(s, i + 1);
    }
}

/// The `k`-th line that starts within `s[from..to]`, without its line ending.
pub open spec fn line_in(s: Seq<char>, from: int, to: int, k: nat) -> Option<Seq<char>>
    decreases k,
{
    let nl = index_from(s, '\n', from);
    if from >= to {
        None
    } else if k > 0 {
        if nl < to {
            line_in(s, nl + 1, to, (k - 1) as nat)
        } else {
            None
        }
    } else if nl >= to {
        Some(s.subrange(from, to))
    } else if nl > from && s[nl - 1] == '\r' {
        Some(s.subrange(from, nl - 1))
    } else {
        Some(s.subrange(from, nl))
    }
}

/// The first text line of every entry from index `i` on. Blank lines separate
/// the entries; an entry's text starts on its third line.
pub open spec fn third_lines(s: Seq<char>, i: int) -> Seq<Seq<char>>
    decreases s.len() - i,
{
    let end = blank_from(s, i);
    let here = match line_in(s, i, end, 2) {
        Some(l) => seq![l],
        None => Seq::empty(),
    };
    if end >= s.len() {
        here
    } else {
        proof {
            lemma_blank_from(s, i);
        }
        here + third_lines(s, end + 2)
    }
}

fn find_blank(v: &Vec<char>, i: usize) -> (r: usize)
    requires
        i <= v@.len(),
    ensures
        r == blank_from(v@, i as int),
        i <= r <= v@.len(),
        r < v@.len() ==> r + 2 <= v@.len(),
{
    let n: usize = v.len();
    let mut k: usize = i;
    while k < n && n - k > 1
        invariant
            i <= k <= n,
            n == v@.len(),
            blank_from(v@, i as int) == blank_from(v@, k as int),
        decreases n - k,
    {
        if v[k] == '\n' && v[k + 1] == '\n' {
            return k;
        }
        k += 1;
    }
    n
}

fn find_line(v: &Vec<char>, from: usize, to: usize, k: u32) -> (r: Option<String>)
    requires
        to <= v@.len(),
    ensures
        match r {
            Some(l) => line_in(v@, from as int, to as int, k as nat) == Some(l@),
            None => line_in(v@, from as int, to as int, k as nat) is None,
        },
    decreases k,
{
    if from >= to {
        return None;
    }
    let nl: usize = find_char(v, '\n', from);
    if k > 0 {
        if nl < to {
            find_line(v, nl + 1, to, k - 1)
        } else {
            None
        }
    } else if nl >= to {
        Some(text_of(v, from, to))
    } else if nl > from && v[nl - 1] == '\r' {
        Some(text_of(v, from, nl - 1))
    } else {
        Some(text_of(v, from, nl))
    }
}

/// The first text line of every caption in a caption file.
pub fn caption_lines(text: &str) -> (out: Vec<String>)
    ensures
        views(out@) == third_lines(text@, 0),
{
    let v = chars_of(text);
    let n: usize = v.len();
    let mut out: Vec<String> = Vec::new();
    let mut i: usize = 0;
    let mut more = true;
    assert(views(out@) + third_lines(v@, 0) =~= third_lines(v@, 0));
    while more
        invariant
            i <= n,
            n == v@.len(),
            v@ == text@,
            more ==> views(out@) + third_lines(v@, i as int) == third_lines(v@, 0),
            !more ==> views(out@) == third_lines(v@, 0),
        decreases
            n - i,
            (if more {
                1int
            } else {
                0
            }),
    {
        let ghost before = views(out@);
        let end: usize = find_blank(&v, i);
        match find_line(&v, i, end, 2) {
            Some(l) => {
                out.push(l);
                assert(views(out@) =~= before + seq![l@]);
            },
            None => {
                assert(views(out@) =~= before + Seq::<Seq<char>>::empty());
            },
        }
        if end < n {
            assert(views(out@) + third_lines(v@, end + 2) =~= before + third_lines(v@, i as int));
            i = end + 2;
        } else {
            assert(views(out@) =~= before + third_lines(v@, i as int));
            more = false;
        }
    }
    out
}

// ---------------------------------------------------------------------------
// Laws
// ---------------------------------------------------------------------------
proof fn lemma_some_piece(text: Seq<char>)
    ensures
        pieces(text).len() > 0,
{
    let t = trimmed(text);
    if t.len() > 0 {
        law_pieces_keep_words(text);
        lemma_words_trimmed(text);
        lemma_trimmed_ends(text);
        assert(words(t).len() > 0);
        if pieces(text).len() == 0 {
            assert(all_words(pieces(text)).len() == 0);
        }
    }
}

proof fn lemma_first_share(c: CueView)
    requires
        on_timeline(c),
    ensures
        shared(c).len() > 0,
        shared(c)[0].start == c.start,
        shared(c)[0].text == pieces(c.text)[0],
{
    let ps = pieces(c.text);
    lemma_some_piece(c.text);
    assert(ps.take(0) =~= Seq::<Seq<char>>::empty());
    let total = if total_len(ps) > 0 {
        total_len(ps) as int
    } else {
        1
    };
    let span = c.end - c.start;
    assert(2 * span * 0 == 0);
    lemma_quotient(total, 2 * total, scaled(span, 0, total));
    let q = scaled(span, 0, total);
    assert(q == 0) by (nonlinear_arith)
        requires
            2 * total * q <= total < 2 * total * q + 2 * total,
            total > 0,
    ;
}

proof fn lemma_share_at(cues: Seq<CueView>, k: int, j: int) -> (p: int)
    requires
        0 <= k < cues.len(),
        0 <= j < shared(cues[k]).len(),
    ensures
        0 <= p < all_shared(cues).len(),
        all_shared(cues)[p] == shared(cues[k])[j],
    decreases cues.len(),
{
    let front = cues.drop_last();
    if k == cues.len() - 1 {
        all_shared(front).len() + j
    } else {
        assert(front[k] == cues[k]);
        lemma_share_at(front, k, j)
    }
}

/// A caption comes up when its words are heard. Where a cue of the transcript
/// starts at a source moment that the plan plays, there is a caption that
/// begins with the cue's words and comes up at the output moment that plays
/// that source moment, stretched by as much as the delivered file is longer
/// than the plan. In a stretch that plays as recorded, the source time of that
/// output moment is the cue's start itself, and where the file is as long as
/// the plan, the caption comes up at that very moment.
pub proof fn law_captions_come_up_when_heard(
    ws: Seq<Word>,
    plan: Plan,
    measured: int,
    q: int,
    k: int,
) -> (r: (int, int))
    requires
        plan.wf(),
        plan_in_order(plan.segments@),
        0 < plan.out_duration_us,
        0 < measured <= TIME_MAX,
        grouped(ws).len() <= usize::MAX,
        0 <= q < grouped(ws).len(),
        0 <= k < plan.segments@.len(),
        plan.segments@[k].src_start <= grouped(ws)[q].start < plan.segments@[k].src_end,
    ensures
        ({
            let (p, x) = r;
            let (c, s) = (grouped(ws)[q], plan.segments@[k]);
            let d = plan.out_duration_us as int;
            let all = captions_of(ws, plan, measured);
            &&& 0 <= p < all.len()
            &&& all[p].text == pieces(c.text)[0]
            &&& s.out_start <= x <= s.out_end
            &&& 2 * (c.start - s.src_start) * s.speed.den - s.speed.num < 2 * s.speed.num * (x
                - s.out_start) <= 2 * (c.start - s.src_start) * s.speed.den + s.speed.num
            &&& s.speed.num == s.speed.den ==> source_time(plan.segments@, x) == Some(
                c.start as int,
            )
            &&& 2 * x * measured - d < 2 * d * all[p].start <= 2 * x * measured + d
            &&& measured == d ==> all[p].start == x
        }),
{
    let g = grouped(ws);
    let moved = all_retimed(plan, measured, g);
    assert forall|j: int| 0 <= j < moved.len() implies on_timeline(#[trigger] moved[j]) by {
        lemma_delivered(plan, measured, g[j].start as int);
        lemma_delivered(plan, measured, g[j].end as int);
    }
    let keys = cue_starts(moved);
    let order = order_of(keys);
    lemma_an_order_exists(keys);
    let sorted = by_start(moved);
    assert(order.contains(q as usize));
    let at = choose|i: int| 0 <= i < order.len() && order[i] == q as usize;
    assert(sorted[at] == moved[q]);
    assert forall|j: int| 0 <= j < sorted.len() implies on_timeline(#[trigger] sorted[j]) by {
        assert(on_timeline(moved[order[j] as int]));
    }
    assert forall|i: int, j: int| 0 <= i < j < sorted.len() implies (#[trigger] sorted[i]).start
        <= (#[trigger] sorted[j]).start by {
        assert(before(keys, order[i] as int, order[j] as int));
    }
    lemma_spaced_in_order(sorted);
    let sp = spaced(sorted);
    assert(on_timeline(sp[at]));
    assert(sp[at].start == moved[q].start && sp[at].text == g[q].text);
    lemma_first_share(sp[at]);
    let p = lemma_share_at(sp, at, 0);
    let t = g[q].start as int;
    let x = output_time(plan, t);
    let d = plan.out_duration_us as int;
    law_a_played_moment_is_found_where_it_plays(plan, k, t);
    lemma_delivered(plan, measured, t);
    law_scaling_goes_to_the_nearest(x, measured, d);
    let all = captions_of(ws, plan, measured);
    assert(all[p].start == delivered_time(plan, measured, t));
    if measured == d {
        let v = all[p].start as int;
        assert(v == x) by (nonlinear_arith)
            requires
                2 * x * measured - d < 2 * d * v <= 2 * x * measured + d,
                measured == d,
                d > 0,
        ;
    }
    (p, x)
}

/// A cue on the delivered timeline runs from where its start plays to where its
/// end plays, or for 0.4 s where that is shorter. Where the file is as long as
/// the plan, those are the very moments of the time map.
pub proof fn law_a_cue_runs_from_its_start_to_its_end(plan: Plan, measured: int, c: CueView)
    requires
        plan.wf(),
        0 < plan.out_duration_us,
        0 < measured <= TIME_MAX,
    ensures
        ({
            let r = retimed(plan, measured, c);
            let (x, y) = (output_time(plan, c.start as int), output_time(plan, c.end as int));
            let d = plan.out_duration_us as int;
            &&& r.text == c.text
            &&& 2 * x * measured - d < 2 * d * r.start <= 2 * x * measured + d
            &&& r.end - r.start >= 400_000
            &&& r.end - r.start == 400_000 || 2 * y * measured - d < 2 * d * r.end <= 2 * y
                * measured + d
            &&& measured == d && y - x >= 400_000 ==> r.start == x && r.end == y
        }),
{
    let (x, y) = (output_time(plan, c.start as int), output_time(plan, c.end as int));
    let d = plan.out_duration_us as int;
    lemma_delivered(plan, measured, c.start as int);
    lemma_delivered(plan, measured, c.end as int);
    law_scaling_goes_to_the_nearest(x, measured, d);
    law_scaling_goes_to_the_nearest(y, measured, d);
    if measured == d {
        let (a, b) = (scaled(x, measured, d), scaled(y, measured, d));
        assert(a == x && b == y) by (nonlinear_arith)
            requires
                2 * x * measured - d < 2 * d * a <= 2 * x * measured + d,
                2 * y * measured - d < 2 * d * b <= 2 * y * measured + d,
                measured == d,
                d > 0,
        ;
    }
}

/// A cue that runs into the next one gives way to it by 0.05 s where it can
/// still last 0.4 s, and keeps as much of its 0.4 s as it can otherwise. One
/// that does not keeps its end, and no cue changes its start or its words.
pub proof fn law_a_cue_gives_way_to_the_next(cues: Seq<CueView>, k: int)
    requires
        0 <= k < cues.len(),
        forall|j: int| 0 <= j < cues.len() ==> on_timeline(#[trigger] cues[j]),
        forall|i: int, j: int|
            0 <= i < j < cues.len() ==> (#[trigger] cues[i]).start <= (#[trigger] cues[j]).start,
    ensures
        ({
            let (c, r) = (cues[k], spaced(cues)[k]);
            &&& spaced(cues).len() == cues.len()
            &&& r.start == c.start
            &&& r.text == c.text
            &&& k + 1 == cues.len() ==> r.end == c.end
            &&& k + 1 < cues.len() ==> {
                let next = cues[k + 1].start;
                &&& c.end <= next ==> r.end == c.end
                &&& c.end > next ==> {
                    &&& r.end <= next
                    &&& r.end == next - 50_000 || r.end == next || r.end - r.start == 400_000
                    &&& next - 50_000 - c.start >= 400_000 ==> r.end == next - 50_000
                    &&& next - 50_000 - c.start < 400_000 <= next - c.start ==> r.end - r.start
                        == 400_000
                    &&& next - c.start < 400_000 ==> r.end == next
                }
            }
        }),
{
    assert(on_timeline(cues[k]));
    if k + 1 < cues.len() {
        assert(on_timeline(cues[k + 1]));
        assert(cues[k].start <= cues[k + 1].start);
    }
}

/// A caption stays up for a second for every eighteen characters, to the
/// nearest microsecond, or until the next one comes up; one that is up for as
/// long as that already keeps its end.
pub proof fn law_captions_stay_up_to_be_read(frags: Seq<CueView>, out_duration: int, k: int)
    requires
        0 <= k < frags.len(),
        0 <= out_duration <= TIME_MAX,
        forall|j: int| 0 <= j < frags.len() ==> 0 <= (#[trigger] frags[j]).start <= 2 * TIME_MAX,
    ensures
        ({
            let (f, h) = (frags[k], all_held(frags, out_duration)[k]);
            let n = f.text.len() as int;
            let limit = if k + 1 < frags.len() {
                frags[k + 1].start as int
            } else {
                out_duration
            };
            &&& h.start == f.start
            &&& h.text == f.text
            &&& 36 * (f.end - f.start) > 2_000_000 * n ==> h.end == f.end
            &&& 36 * (f.end - f.start) <= 2_000_000 * n - 18 ==> h.end <= limit && (h.end == limit
                || 2_000_000 * n - 18 < 36 * (h.end - h.start) <= 2_000_000 * n + 18)
            &&& h.end == f.end || h.end == limit || 2_000_000 * n - 18 < 36 * (h.end - h.start)
                <= 2_000_000 * n + 18
        }),
{
    let n = frags[k].text.len() as int;
    let need = reading_time(n);
    lemma_quotient(2 * n * 1_000_000 + 18, 36, need);
    assert(0 <= frags[k].start <= 2 * TIME_MAX);
    if k + 1 < frags.len() {
        assert(0 <= frags[k + 1].start <= 2 * TIME_MAX);
    }
}

/// The word says something.
pub open spec fn is_spoken(w: Word) -> bool {
    trimmed(w.text@).len() > 0
}

/// The cue is made of the words from the `a`-th up to the `b`-th: it starts when
/// the first of them does, ends when the last does, and none of them but the
/// last ends a sentence.
pub open spec fn spans_words(
    ws: Seq<Word>,
    a: int,
    b: int,
    start: i64,
    end: i64,
    text: Seq<char>,
) -> bool {
    &&& 0 <= a < b <= ws.len()
    &&& is_spoken(ws[a])
    &&& start == ws[a].start
    &&& exists|l: int|
        a <= l < b && is_spoken(#[trigger] ws[l]) && end == ws[l].end && (forall|m: int|
            l < m < b ==> !is_spoken(#[trigger] ws[m])) && (forall|m: int|
            a <= m < l && is_spoken(#[trigger] ws[m]) ==> !sentence_ends(ws[m]))
    &&& words(text) == all_words(word_texts(ws.subrange(a, b)))
}

/// The word ends in a full stop, an exclamation mark or a question mark.
pub open spec fn sentence_ends(w: Word) -> bool {
    let t = trimmed(w.text@);
    t.len() > 0 && (t[t.len() - 1] == '.' || t[t.len() - 1] == '!' || t[t.len() - 1] == '?')
}

/// The cue is made of words up to the `b`-th, of which the last ends a sentence
/// or brings the cue to 252 characters.
pub open spec fn is_full_cue(ws: Seq<Word>, c: CueView, a: int, b: int) -> bool {
    &&& spans_words(ws, a, b, c.start, c.end, c.text)
    &&& is_spoken(ws[b - 1])
    &&& sentence_ends(ws[b - 1]) || c.text.len() >= 252
}

/// What the grouping holds once the words are in: the open cue is made of the
/// last of them, from the `a`-th on.
spec fn holds_words(ws: Seq<Word>, a: int) -> bool {
    let g = grouping(ws);
    let n = ws.len() as int;
    &&& g.buf.len() > 0 ==> spans_words(ws, a, n, g.start, g.end, g.buf) && g.buf.len() < 252
        && trimmed(g.buf) == g.buf
    &&& g.buf.len() > 0 ==> forall|m: int|
        a <= m < n && is_spoken(#[trigger] ws[m]) ==> !sentence_ends(ws[m])
    &&& forall|k: int| 0 <= k < g.cues.len() ==> fills_up(ws, #[trigger] g.cues[k])
}

/// Some words make up the cue and fill it.
spec fn fills_up(ws: Seq<Word>, c: CueView) -> bool {
    exists|i: int, j: int| #[trigger] is_full_cue(ws, c, i, j)
}

proof fn lemma_full_cue_stays(ws: Seq<Word>, w: Word, c: CueView, a: int, b: int)
    requires
        is_full_cue(ws, c, a, b),
    ensures
        is_full_cue(ws.push(w), c, a, b),
{
    let q = ws.push(w);
    assert(q.subrange(a, b) =~= ws.subrange(a, b));
    let l = choose|l: int|
        a <= l < b && is_spoken(#[trigger] ws[l]) && c.end == ws[l].end && (forall|m: int|
            l < m < b ==> !is_spoken(#[trigger] ws[m])) && (forall|m: int|
            a <= m < l && is_spoken(#[trigger] ws[m]) ==> !sentence_ends(ws[m]));
    assert(q[l] == ws[l]);
    assert forall|m: int| l < m < b implies !is_spoken(#[trigger] q[m]) by {
        assert(q[m] == ws[m]);
    }
    assert forall|m: int| a <= m < l && is_spoken(#[trigger] q[m]) implies !sentence_ends(q[m]) by {
        assert(q[m] == ws[m]);
    }
}

proof fn lemma_trimmed_again(t: Seq<char>)
    requires
        t.len() > 0,
        !is_space(t[0]),
        !is_space(t.last()),
    ensures
        trimmed(t) == t,
{
}

proof fn lemma_word_texts_push(ws: Seq<Word>, a: int, b: int)
    requires
        0 <= a <= b < ws.len(),
    ensures
        all_words(word_texts(ws.subrange(a, b + 1))) == all_words(word_texts(ws.subrange(a, b)))
            + words(ws[b].text@),
{
    let (x, y) = (word_texts(ws.subrange(a, b)), word_texts(ws.subrange(a, b + 1)));
    assert(y.drop_last() =~= x);
    assert(y.last() == ws[b].text@);
}

proof fn lemma_holds_words(ws: Seq<Word>) -> (a: int)
    ensures
        holds_words(ws, a),
    decreases ws.len(),
{
    if ws.len() == 0 {
        0
    } else {
        let front = ws.drop_last();
        let n = front.len() as int;
        let w = ws[n];
        assert(ws =~= front.push(w));
        let a = lemma_holds_words(front);
        let g = grouping(front);
        let h = grouping(ws);
        let t = trimmed(w.text@);
        assert(forall|m: int| 0 <= m < n ==> #[trigger] front[m] == ws[m]);
        assert forall|k: int| 0 <= k < g.cues.len() implies fills_up(ws, #[trigger] g.cues[k]) by {
            assert(fills_up(front, g.cues[k]));
            let (i, j) = choose|i: int, j: int| #[trigger] is_full_cue(front, g.cues[k], i, j);
            lemma_full_cue_stays(front, w, g.cues[k], i, j);
        }
        lemma_words_trimmed(w.text@);
        lemma_trimmed_ends(w.text@);
        if t.len() == 0 {
            lemma_no_words(w.text@);
            if g.buf.len() > 0 {
                assert(ws.subrange(a, n) =~= front.subrange(a, n));
                lemma_word_texts_push(ws, a, n);
                let l = choose|l: int|
                    a <= l < n && is_spoken(#[trigger] front[l]) && g.end == front[l].end && (
                    forall|m: int| l < m < n ==> !is_spoken(#[trigger] front[m])) && (forall|m: int|
                        a <= m < l && is_spoken(#[trigger] front[m]) ==> !sentence_ends(front[m]));
                assert(is_spoken(ws[l]));
                assert forall|m: int| l < m < n + 1 implies !is_spoken(#[trigger] ws[m]) by {
                    if m < n {
                        assert(!is_spoken(front[m]));
                    }
                }
                assert(words(g.buf) =~= all_words(word_texts(ws.subrange(a, n + 1))));
                assert(spans_words(ws, a, n + 1, g.start, g.end, g.buf));
            }
            a
        } else {
            let i = if g.buf.len() == 0 {
                n
            } else {
                a
            };
            let start = if g.buf.len() == 0 {
                w.start
            } else {
                g.start
            };
            let buf = if g.buf.len() == 0 {
                t
            } else {
                g.buf + seq![' '] + t
            };
            assert(is_spoken(ws[n]));
            lemma_word_texts_push(ws, i, n);
            if g.buf.len() == 0 {
                assert(word_texts(ws.subrange(n, n)).len() == 0);
                assert(all_words(word_texts(ws.subrange(n, n))).len() == 0);
                assert(words(buf) =~= all_words(word_texts(ws.subrange(i, n + 1))));
            } else {
                assert(ws.subrange(a, n) =~= front.subrange(a, n));
                lemma_words_concat(g.buf, ' ', t);
                assert(g.buf + seq![' '] + t =~= g.buf.push(' ') + t);
                assert(words(buf) =~= all_words(word_texts(ws.subrange(i, n + 1))));
                lemma_trimmed_ends(g.buf);
            }
            lemma_trimmed_again(buf);
            assert forall|m: int| i <= m < n && is_spoken(#[trigger] ws[m]) implies !sentence_ends(
                ws[m],
            ) by {
                assert(front[m] == ws[m]);
            }
            assert(spans_words(ws, i, n + 1, start, w.end, buf));
            if ends_sentence(t) || buf.len() >= MAX_CUE {
                let c = CueView { start, end: w.end, text: trimmed(buf) };
                assert(is_full_cue(ws, c, i, n + 1));
                assert forall|k: int| 0 <= k < h.cues.len() implies fills_up(
                    ws,
                    #[trigger] h.cues[k],
                ) by {
                    if k < g.cues.len() {
                        assert(h.cues[k] == g.cues[k]);
                    } else {
                        assert(h.cues[k] == c);
                        assert(is_full_cue(ws, h.cues[k], i, n + 1));
                    }
                }
            }
            i
        }
    }
}

/// A cue is made of the words it says: it starts when the first of them does
/// and ends when the last does. It goes on until a word ends a sentence or it
/// has 252 characters, and no further; only the last cue may end before that.
pub proof fn law_a_cue_spans_its_words(ws: Seq<Word>, k: int) -> (r: (int, int))
    requires
        0 <= k < grouped(ws).len(),
    ensures
        ({
            let (a, b) = r;
            let c = grouped(ws)[k];
            &&& spans_words(ws, a, b, c.start, c.end, c.text)
            &&& is_full_cue(ws, c, a, b) || (b == ws.len() && k == grouped(ws).len() - 1
                && c.text.len() < 252 && forall|m: int|
                a <= m < b && is_spoken(#[trigger] ws[m]) ==> !sentence_ends(ws[m]))
        }),
{
    let a = lemma_holds_words(ws);
    let g = grouping(ws);
    if k < g.cues.len() {
        assert(fills_up(ws, g.cues[k]));
        choose|i: int, j: int| #[trigger] is_full_cue(ws, g.cues[k], i, j)
    } else {
        (a, ws.len() as int)
    }
}

/// A time is written as hours, minutes, seconds and thousandths of a second, to
/// the nearest thousandth; a time before zero is zero.
pub proof fn law_timestamps_read_back(t: int)
    requires
        t < 359_999_999_500,
    ensures
        ({
            let s = timestamp(t);
            let ms = value(s.subrange(0, 2)) * 3_600_000 + value(s.subrange(3, 5)) * 60_000 + value(
                s.subrange(6, 8),
            ) * 1000 + value(s.subrange(9, 12));
            &&& s.len() == 12
            &&& s[2] == ':' && s[5] == ':' && s[8] == ','
            &&& value(s.subrange(3, 5)) < 60
            &&& value(s.subrange(6, 8)) < 60
            &&& t >= 0 ==> t - 500 < 1000 * ms <= t + 500
            &&& t < 0 ==> ms == 0
        }),
{
    let ms = if t < 0 {
        0nat
    } else {
        ((t + 500) / 1000) as nat
    };
    assert(crate::num::pow10(2) == 100 && crate::num::pow10(3) == 1000) by {
        reveal_with_fuel(crate::num::pow10, 4);
    }
    assert(ms < 360_000_000);
    let (hn, mn, sn, part) = (ms / 3_600_000, (ms / 60_000) % 60, (ms / 1000) % 60, ms % 1000);
    lemma_clock(ms);
    let (h, m, s, f) = (padded(hn, 2), padded(mn, 2), padded(sn, 2), padded(part, 3));
    law_padded_numbers_read_back(hn, 2);
    law_padded_numbers_read_back(mn, 2);
    law_padded_numbers_read_back(sn, 2);
    law_padded_numbers_read_back(part, 3);
    lemma_clock_text(h, m, s, f);
    assert(timestamp(t) == h + seq![':'] + m + seq![':'] + s + seq![','] + f);
}

/// Hours, minutes, seconds and thousandths make up the whole.
proof fn lemma_clock(ms: nat)
    ensures
        ms == (ms / 3_600_000) * 3_600_000 + ((ms / 60_000) % 60) * 60_000 + ((ms / 1000) % 60)
            * 1000 + ms % 1000,
{
    assert((ms / 1000) / 60 == ms / 60_000);
    assert((ms / 60_000) / 60 == ms / 3_600_000);
}

/// The parts of a time stand where they were written.
proof fn lemma_clock_text(h: Seq<char>, m: Seq<char>, s: Seq<char>, f: Seq<char>)
    requires
        h.len() == 2,
        m.len() == 2,
        s.len() == 2,
        f.len() == 3,
    ensures
        ({
            let x = h + seq![':'] + m + seq![':'] + s + seq![','] + f;
            &&& x.len() == 12
            &&& x[2] == ':' && x[5] == ':' && x[8] == ','
            &&& x.subrange(0, 2) == h
            &&& x.subrange(3, 5) == m
            &&& x.subrange(6, 8) == s
            &&& x.subrange(9, 12) == f
        }),
{
    let x = h + seq![':'] + m + seq![':'] + s + seq![','] + f;
    assert(x.subrange(0, 2) =~= h);
    assert(x.subrange(3, 5) =~= m);
    assert(x.subrange(6, 8) =~= s);
    assert(x.subrange(9, 12) =~= f);
}

/// A caption shows its first two lines of 44 characters at most, a longer word
/// by itself on a line excepted.
pub proof fn law_captions_show_two_lines_of_44(text: Seq<char>)
    ensures
        shown_lines(text).len() <= 2,
        shown_lines(text).len() <= wrapped(text, 44).len(),
        shown_lines(text).len() == 2 || shown_lines(text).len() == wrapped(text, 44).len(),
        forall|k: int|
            0 <= k < shown_lines(text).len() ==> #[trigger] shown_lines(text)[k] == wrapped(
                text,
                44,
            )[k] && (shown_lines(text)[k].len() <= 44 || words(shown_lines(text)[k]).len() == 1),
{
    law_wrapping_keeps_words(text, 44);
    assert forall|k: int| 0 <= k < shown_lines(text).len() implies #[trigger] shown_lines(text)[k]
        == wrapped(text, 44)[k] && (shown_lines(text)[k].len() <= 44 || words(
        shown_lines(text)[k],
    ).len() == 1) by {
        assert(crate::captions::fits_or_single(wrapped(text, 44)[k], 44));
    }
}

/// The pieces of a cue share its time by their length: each starts as far into
/// the cue as the characters before it are of all the characters, to the nearest
/// microsecond.
pub proof fn law_pieces_share_the_time_by_length(c: CueView, k: int)
    requires
        on_timeline(c),
        total_len(pieces(c.text)) > 0,
        0 <= k < shared(c).len(),
    ensures
        ({
            let ps = pieces(c.text);
            let (before, all) = (total_len(ps.take(k)) as int, total_len(ps) as int);
            let into = shared(c)[k].start - c.start;
            &&& shared(c)[k].text == ps[k]
            &&& 2 * (c.end - c.start) * before - all < 2 * all * into <= 2 * (c.end - c.start)
                * before + all
        }),
{
    let ps = pieces(c.text);
    let (before, all) = (total_len(ps.take(k)) as int, total_len(ps) as int);
    let span = c.end - c.start;
    lemma_shared_fit(c);
    lemma_total_len_take(ps, k);
    law_scaling_goes_to_the_nearest(span, before, all);
    lemma_scaled_part(before, span, all);
    assert(scaled(before, span, all) == scaled(span, before, all)) by {
        assert(2 * before * span == 2 * span * before) by (nonlinear_arith);
    }
}

/// The file numbers its entries from one and puts a blank line after each.
pub proof fn law_the_file_grows_by_an_entry(frags: Seq<CueView>, f: CueView)
    ensures
        srt(Seq::empty()).len() == 0,
        srt(frags.push(f)) == srt(frags) + decimal(frags.len() + 1) + seq!['\n'] + timestamp(
            f.start as int,
        ) + " --> "@ + timestamp(f.end as int) + seq!['\n'] + joined(
            shown_lines(f.text),
            seq!['\n'],
        ) + seq!['\n', '\n'],
{
    assert(frags.push(f).drop_last() =~= frags);
    assert(srt(frags.push(f)) =~= srt(frags) + decimal(frags.len() + 1) + seq!['\n'] + timestamp(
        f.start as int,
    ) + " --> "@ + timestamp(f.end as int) + seq!['\n'] + joined(shown_lines(f.text), seq!['\n'])
        + seq!['\n', '\n']);
}

proof fn lemma_index_at(s: Seq<char>, c: char, i: int, at: int)
    requires
        0 <= i <= at < s.len(),
        s[at] == c,
        forall|k: int| i <= k < at ==> s[k] != c,
    ensures
        index_from(s, c, i) == at,
    decreases at - i,
{
    if i < at {
        assert(s[i] != c);
        lemma_index_at(s, c, i + 1, at);
    }
}

proof fn lemma_blank_at(s: Seq<char>, i: int, at: int)
    requires
        0 <= i <= at,
        at + 1 < s.len(),
        s[at] == '\n' && s[at + 1] == '\n',
        forall|k: int| i <= k < at ==> !(s[k] == '\n' && #[trigger] s[k + 1] == '\n'),
    ensures
        blank_from(s, i) == at,
    decreases at - i,
{
    if i < at {
        assert(!(s[i] == '\n' && s[i + 1] == '\n'));
        lemma_blank_at(s, i + 1, at);
    }
}

/// Of an entry, what is read back is its third line: the first of its text. Here
/// the first two lines end at `p` and `q`, the third at `r`, and a blank line
/// follows; what comes after it is read in the same way.
pub proof fn law_the_third_line_is_read_back(s: Seq<char>, i: int, p: int, q: int, r: int)
    requires
        0 <= i < p,
        p + 1 < q,
        q + 1 < r,
        r + 2 <= s.len(),
        s[p] == '\n' && s[q] == '\n' && s[r] == '\n' && s[r + 1] == '\n',
        forall|k: int| i <= k < r && k != p && k != q ==> s[k] != '\n',
    ensures
        third_lines(s, i) == seq![s.subrange(q + 1, r)] + third_lines(s, r + 2),
{
    assert forall|k: int| i <= k < r implies !(s[k] == '\n' && #[trigger] s[k + 1] == '\n') by {
        if k == p {
            assert(s[p + 1] != '\n');
        }
        if k == q {
            assert(s[q + 1] != '\n');
        }
    }
    lemma_blank_at(s, i, r);
    lemma_index_at(s, '\n', i, p);
    lemma_index_at(s, '\n', p + 1, q);
    lemma_index_at(s, '\n', q + 1, r);
    reveal_with_fuel(line_in, 3);
    assert(line_in(s, q + 1, r, 0) == Some(s.subrange(q + 1, r)));
    assert(line_in(s, p + 1, r, 1) == line_in(s, q + 1, r, 0));
    assert(line_in(s, i, r, 2) == line_in(s, p + 1, r, 1));
}

} // verus!
