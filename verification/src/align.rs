//! Word-level transcript, decoded in chunks.
//!
//! A long recording decoded in one pass loses repeated phrases, which are what
//! disfluency removal looks for. So it is decoded in independent overlapping
//! chunks, and a word is kept only by the chunk whose own region holds the
//! word's midpoint.
use vstd::prelude::*;

use crate::captions::{words_fit, Word};
use crate::constants::TIME_MAX;
use crate::order::{is_order, order_of, stable_order};
use crate::text::{
    all_words, is_space, lemma_words_meet, lemma_words_trimmed, trim, trimmed, words,
};

verus! {

/// Length of a chunk, in seconds.
pub const CHUNK_S: u32 = 30;

/// How much neighbouring chunks overlap, in seconds.
pub const OVERLAP_S: u32 = 3;

/// Each chunk starts this long after the one before, in seconds.
pub const STEP_S: u32 = 27;

/// Where the file holding the speech model can be had.
pub const MODEL_URL: &'static str =
    "https://huggingface.co/ggerganov/whisper.cpp/resolve/main/ggml-base.bin";

// ---------------------------------------------------------------------------
// Chunks
// ---------------------------------------------------------------------------
/// The samples of one chunk.
#[derive(Clone, Copy, Debug, PartialEq, Eq, Structural)]
pub struct Chunk {
    pub index: usize,
    /// First sample.
    pub first: usize,
    /// Sample after the last.
    pub end: usize,
    /// The chunk reaches the end of the recording.
    pub last: bool,
}

/// First sample of the `k`-th chunk.
pub open spec fn chunk_first(k: int, rate: int) -> int {
    STEP_S * k * rate
}

/// Sample at which the `k`-th chunk ends, were the recording long enough.
pub open spec fn chunk_full_end(k: int, rate: int) -> int {
    chunk_first(k, rate) + CHUNK_S * rate
}

/// Whether the `k`-th chunk of a recording of `n` samples is decoded: it starts
/// before the end, and at least half a second of it is left.
pub open spec fn is_decoded(k: int, n: int, rate: int) -> bool {
    &&& chunk_first(k, rate) < n
    &&& 2 * ((if chunk_full_end(k, rate) < n {
        chunk_full_end(k, rate)
    } else {
        n
    }) - chunk_first(k, rate)) >= rate
}

/// The `k`-th chunk of a recording, or `None` when there is nothing left worth
/// decoding.
pub fn chunk(k: usize, samples: usize, rate: u32) -> (c: Option<Chunk>)
    requires
        k <= 0xffff_ffff,
    ensures
        match c {
            Some(c) => {
                &&& is_decoded(k as int, samples as int, rate as int)
                &&& c.index == k
                &&& c.first == chunk_first(k as int, rate as int)
                &&& c.last == (chunk_full_end(k as int, rate as int) >= samples)
                &&& c.end == (if c.last {
                    samples as int
                } else {
                    chunk_full_end(k as int, rate as int)
                })
            },
            None => !is_decoded(k as int, samples as int, rate as int),
        },
{
    let ghost (gk, gr) = (k as int, rate as int);
    assert(0 <= STEP_S * gk * gr <= 27 * 0xffff_ffff * 0xffff_ffff) by (nonlinear_arith)
        requires
            0 <= gk <= 0xffff_ffff,
            0 <= gr <= 0xffff_ffff,
            STEP_S == 27,
    ;
    assert(STEP_S * gk * gr == 27 * gk * gr);
    let first: u128 = 27 * k as u128 * rate as u128;
    let full: u128 = first + 30 * rate as u128;
    let n: u128 = samples as u128;
    if first >= n {
        return None;
    }
    let last = full >= n;
    let end: u128 = if last {
        n
    } else {
        full
    };
    if 2 * (end - first) < rate as u128 {
        return None;
    }
    Some(Chunk { index: k, first: first as usize, end: end as usize, last })
}

/// The region in which the `k`-th chunk keeps words, as twice its bounds in
/// microseconds times the sample rate. It starts half an overlap in, but for
/// the first chunk.
pub open spec fn owned_from(k: int, rate: int) -> int {
    if k == 0 {
        0
    } else {
        (2 * STEP_S * k + OVERLAP_S) * 1_000_000 * rate
    }
}

/// The region stops where that of the next chunk starts, if there is a next
/// chunk that is decoded, and at the latest at the end of the recording.
pub open spec fn owned_to(k: int, n: int, rate: int) -> int {
    let end = 2 * n * 1_000_000;
    if is_decoded(k + 1, n, rate) && owned_from(k + 1, rate) < end {
        owned_from(k + 1, rate)
    } else {
        end
    }
}

/// A word belongs to a chunk when its midpoint is in the chunk's own region.
/// `sum` is the word's start plus its end.
pub open spec fn owns(k: int, n: int, rate: int, sum: int) -> bool {
    owned_from(k, rate) <= sum * rate < owned_to(k, n, rate)
}

/// Tests whether a word of a chunk belongs to it.
pub fn belongs(c: &Chunk, samples: usize, rate: u32, w: &Word) -> (b: bool)
    requires
        c.index < 0xffff_ffff,
        w.wf(),
    ensures
        b == owns(c.index as int, samples as int, rate as int, w.start + w.end),
{
    let k: i128 = c.index as i128;
    let r: i128 = rate as i128;
    let sum: i128 = w.start as i128 + w.end as i128;
    let ghost (gk, gr, gs) = (k as int, r as int, sum as int);
    proof {
        assert(-2_000_000_000_000_000_000 * 0xffff_ffff <= gs * gr <= 2_000_000_000_000_000_000
            * 0xffff_ffff) by (nonlinear_arith)
            requires
                -2_000_000_000_000_000_000 <= gs <= 2_000_000_000_000_000_000,
                0 <= gr <= 0xffff_ffff,
        ;
        assert(0 <= (54 * gk + 60) * 1_000_000 * gr <= (54 * 0xffff_ffff + 60) * 1_000_000
            * 0xffff_ffff) by (nonlinear_arith)
            requires
                0 <= gk <= 0xffff_ffff,
                0 <= gr <= 0xffff_ffff,
        ;
        assert(0 <= (54 * gk + 3) * 1_000_000 * gr <= (54 * gk + 60) * 1_000_000 * gr)
            by (nonlinear_arith)
            requires
                0 <= gk,
                0 <= gr,
        ;
        assert(0 <= (54 * gk + 57) * 1_000_000 * gr <= (54 * gk + 60) * 1_000_000 * gr)
            by (nonlinear_arith)
            requires
                0 <= gk,
                0 <= gr,
        ;
    }
    let from: i128 = if c.index == 0 {
        0
    } else {
        (54 * k + 3) * 1_000_000 * r
    };
    let end: i128 = 2 * samples as i128 * 1_000_000;
    let next: i128 = (54 * k + 57) * 1_000_000 * r;
    let to: i128 = if next < end && chunk(c.index + 1, samples, rate).is_some() {
        next
    } else {
        end
    };
    from <= sum * r && sum * r < to
}

/// The chunks leave nothing out: every moment of a recording of at least half a
/// second is in the own region of a chunk that is decoded.
pub proof fn law_every_moment_is_owned(n: int, rate: int, sum: int) -> (k: int)
    requires
        rate > 0,
        2 * n >= rate,
        0 <= sum,
        sum * rate < 2 * n * 1_000_000,
    ensures
        0 <= k,
        is_decoded(k, n, rate),
        owns(k, n, rate, sum),
{
    if sum * rate < owned_to(0, n, rate) {
        assert(chunk_first(0, rate) == 0) by (nonlinear_arith)
            requires
                chunk_first(0, rate) == STEP_S * 0 * rate,
        ;
        assert(0 <= sum * rate) by (nonlinear_arith)
            requires
                0 <= sum,
                0 < rate,
        ;
        0
    } else {
        // The chunk in whose stretch of one step the moment lies.
        let k = (sum - 3_000_000) / 54_000_000;
        crate::plan::lemma_quotient(sum - 3_000_000, 54_000_000, k);
        assert(sum >= 57_000_000) by (nonlinear_arith)
            requires
                sum * rate >= 57 * 1_000_000 * rate,
                rate > 0,
        ;
        assert(k >= 1);
        assert(owned_from(k, rate) <= sum * rate) by (nonlinear_arith)
            requires
                owned_from(k, rate) == (54 * k + 3) * 1_000_000 * rate,
                54_000_000 * k <= sum - 3_000_000,
                rate > 0,
        ;
        assert((54 * k + 3) * 1_000_000 * rate < 2 * n * 1_000_000);
        let first = chunk_first(k, rate);
        assert(54 * k * rate + 3 * rate < 2 * n && first == 27 * k * rate) by (nonlinear_arith)
            requires
                (54 * k + 3) * 1_000_000 * rate < 2 * n * 1_000_000,
                first == 27 * k * rate,
        ;
        assert(2 * first == 54 * k * rate) by (nonlinear_arith)
            requires
                first == 27 * k * rate,
        ;
        assert(sum * rate < (54 * k + 57) * 1_000_000 * rate) by (nonlinear_arith)
            requires
                sum - 3_000_000 < 54_000_000 * k + 54_000_000,
                rate > 0,
        ;
        k
    }
}

/// No moment is in the own regions of two chunks that are decoded, so no word
/// is kept twice at a seam, wherever the recording ends.
pub proof fn law_no_moment_is_owned_twice(n: int, rate: int, sum: int, j: int, k: int)
    requires
        rate > 0,
        0 <= j < k,
        is_decoded(k, n, rate),
    ensures
        !(owns(j, n, rate, sum) && owns(k, n, rate, sum)),
{
    assert((54 * j + 57) * 1_000_000 * rate <= (54 * k + 3) * 1_000_000 * rate)
        by (nonlinear_arith)
        requires
            j + 1 <= k,
            rate > 0,
    ;
    if j + 1 < k {
        assert(STEP_S * (j + 1) * rate + 27 * rate <= STEP_S * k * rate) by (nonlinear_arith)
            requires
                j + 2 <= k,
                rate > 0,
                STEP_S == 27,
        ;
    }
    assert(is_decoded(j + 1, n, rate));
}

// ---------------------------------------------------------------------------
// Words
// ---------------------------------------------------------------------------
/// A piece of text as the speech model gives it out, with its times in
/// hundredths of a second from the start of the chunk.
#[derive(Debug)]
pub struct Piece {
    pub text: String,
    pub t0: i64,
    pub t1: i64,
    /// How sure the model was, in millionths.
    pub prob: i64,
}

#[verifier::ext_equal]
pub struct WordView {
    pub text: Seq<char>,
    pub start: i64,
    pub end: i64,
    pub prob: i64,
}

impl View for Word {
    type V = WordView;

    open spec fn view(&self) -> WordView {
        WordView { text: self.text@, start: self.start, end: self.end, prob: self.prob }
    }
}

pub open spec fn word_views(ws: Seq<Word>) -> Seq<WordView> {
    Seq::new(ws.len(), |k: int| ws[k]@)
}

/// The words closed so far, and the one being put together.
#[verifier::ext_equal]
pub struct Assembly {
    pub words: Seq<WordView>,
    pub open: bool,
    pub text: Seq<char>,
    pub start: int,
    pub end: int,
    pub prob_sum: int,
    pub count: int,
}

/// A special token, such as the one that begins a segment.
pub open spec fn is_special(text: Seq<char>) -> bool {
    text.len() > 0 && text[0] == '['
}

/// By convention a piece that begins with a space starts a new word.
pub open spec fn starts_word(text: Seq<char>) -> bool {
    text.len() > 0 && text[0] == ' '
}

/// The words with the open one closed; one without text is dropped.
pub open spec fn closed(a: Assembly) -> Seq<WordView> {
    if a.open && trimmed(a.text).len() > 0 {
        a.words.push(
            WordView {
                text: a.text,
                start: a.start as i64,
                end: a.end as i64,
                prob: (a.prob_sum / a.count) as i64,
            },
        )
    } else {
        a.words
    }
}

/// One more piece.
pub open spec fn with_piece(a: Assembly, p: Piece, cs: int) -> Assembly {
    let t0 = cs + p.t0 * 10_000;
    let t1 = cs + p.t1 * 10_000;
    if is_special(p.text@) {
        a
    } else if a.open && !starts_word(p.text@) {
        Assembly {
            text: a.text + p.text@,
            end: t1,
            prob_sum: a.prob_sum + p.prob,
            count: a.count + 1,
            ..a
        }
    } else {
        Assembly {
            words: closed(a),
            open: true,
            text: p.text@,
            start: t0,
            end: t1,
            prob_sum: p.prob as int,
            count: 1,
        }
    }
}

pub open spec fn assembled(pieces: Seq<Piece>, cs: int) -> Assembly
    decreases pieces.len(),
{
    if pieces.len() == 0 {
        Assembly {
            words: Seq::empty(),
            open: false,
            text: Seq::empty(),
            start: 0,
            end: 0,
            prob_sum: 0,
            count: 0,
        }
    } else {
        with_piece(assembled(pieces.drop_last(), cs), pieces.last(), cs)
    }
}

/// The piece's numbers are ones a recording can have.
pub open spec fn piece_fits(p: Piece) -> bool {
    &&& -10_000_000_000_000 <= p.t0 <= 10_000_000_000_000
    &&& -10_000_000_000_000 <= p.t1 <= 10_000_000_000_000
    &&& 0 <= p.prob <= 1_000_000
}

pub open spec fn pieces_fit(pieces: Seq<Piece>) -> bool {
    forall|k: int| 0 <= k < pieces.len() ==> piece_fits(#[trigger] pieces[k])
}

fn close_word(
    out: &mut Vec<Word>,
    text: &String,
    start: i64,
    end: i64,
    prob_sum: u128,
    count: u128,
)
    requires
        words_fit(old(out)@),
        -TIME_MAX <= start <= TIME_MAX,
        -TIME_MAX <= end <= TIME_MAX,
        0 < count,
        prob_sum <= 1_000_000 * count,
    ensures
        word_views(final(out)@) == (if trimmed(text@).len() > 0 {
            word_views(old(out)@).push(
                WordView {
                    text: text@,
                    start,
                    end,
                    prob: (prob_sum as int / count as int) as i64,
                },
            )
        } else {
            word_views(old(out)@)
        }),
        words_fit(final(out)@),
{
    if !trim(text.as_str()).as_str().is_empty() {
        let ghost before = word_views(out@);
        proof {
            let (s, c) = (prob_sum as int, count as int);
            assert(0 <= s / c <= 1_000_000) by (nonlinear_arith)
                requires
                    0 <= s <= 1_000_000 * c,
                    c > 0,
            ;
        }
        let mean: u128 = prob_sum / count;
        let w = Word { text: text.clone(), start, end, prob: mean as i64 };
        out.push(w);
        assert(word_views(out@) =~= before.push(w@));
    }
}

/// Groups the pieces of one decoded chunk into words. `cs_us` is where the
/// chunk starts in the recording.
pub fn chunk_words(pieces: &Vec<Piece>, cs_us: i64) -> (out: Vec<Word>)
    requires
        pieces_fit(pieces@),
        0 <= cs_us <= 800_000_000_000_000_000,
    ensures
        word_views(out@) == closed(assembled(pieces@, cs_us as int)),
        words_fit(out@),
{
    let mut out: Vec<Word> = Vec::new();
    let mut open = false;
    let mut text = String::new();
    let mut start: i64 = 0;
    let mut end: i64 = 0;
    let mut prob_sum: u128 = 0;
    let mut count: u128 = 0;
    let ghost cs = cs_us as int;
    let mut k: usize = 0;
    assert(word_views(out@) =~= Seq::<WordView>::empty());
    while k < pieces.len()
        invariant
            k <= pieces@.len(),
            cs == cs_us,
            0 <= cs_us <= 800_000_000_000_000_000,
            pieces_fit(pieces@),
            words_fit(out@),
            count <= k,
            prob_sum <= 1_000_000 * count,
            open ==> count > 0,
            -TIME_MAX <= start <= TIME_MAX,
            -TIME_MAX <= end <= TIME_MAX,
            assembled(pieces@.take(k as int), cs) == (Assembly {
                words: word_views(out@),
                open,
                text: text@,
                start: start as int,
                end: end as int,
                prob_sum: prob_sum as int,
                count: count as int,
            }),
        decreases pieces@.len() - k,
    {
        assert(pieces@.take(k + 1).drop_last() =~= pieces@.take(k as int));
        let p = &pieces[k];
        assert(piece_fits(pieces@[k as int]));
        let len: usize = p.text.as_str().unicode_len();
        let first: char = if len > 0 {
            p.text.as_str().get_char(0)
        } else {
            'x'
        };
        if !(len > 0 && first == '[') {
            let a: i64 = cs_us + p.t0 * 10_000;
            let b: i64 = cs_us + p.t1 * 10_000;
            if open && !(len > 0 && first == ' ') {
                text.append(p.text.as_str());
                end = b;
                prob_sum = prob_sum + p.prob as u128;
                count = count + 1;
            } else {
                if open {
                    close_word(&mut out, &text, start, end, prob_sum, count);
                }
                open = true;
                text = p.text.clone();
                start = a;
                end = b;
                prob_sum = p.prob as u128;
                count = 1;
            }
        }
        assert(assembled(pieces@.take(k + 1), cs) =~= (Assembly {
            words: word_views(out@),
            open,
            text: text@,
            start: start as int,
            end: end as int,
            prob_sum: prob_sum as int,
            count: count as int,
        }));
        k += 1;
    }
    assert(pieces@.take(k as int) =~= pieces@);
    if open {
        close_word(&mut out, &text, start, end, prob_sum, count);
    }
    out
}

// ---------------------------------------------------------------------------
// What is kept
// ---------------------------------------------------------------------------
/// The words of a chunk that belong to it.
pub open spec fn owned(ws: Seq<Word>, k: int, n: int, rate: int) -> Seq<WordView>
    decreases ws.len(),
{
    if ws.len() == 0 {
        Seq::empty()
    } else {
        let rest = owned(ws.drop_last(), k, n, rate);
        if owns(k, n, rate, ws.last().start + ws.last().end) {
            rest.push(ws.last()@)
        } else {
            rest
        }
    }
}

fn copy_word(w: &Word) -> (c: Word)
    ensures
        c@ == w@,
        w.wf() ==> c.wf(),
{
    Word { text: w.text.clone(), start: w.start, end: w.end, prob: w.prob }
}

/// Adds the words of one chunk that belong to it to what was kept so far.
pub fn keep_owned(out: &mut Vec<Word>, ws: &Vec<Word>, c: &Chunk, samples: usize, rate: u32)
    requires
        words_fit(old(out)@),
        words_fit(ws@),
        c.index < 0xffff_ffff,
    ensures
        word_views(final(out)@) == word_views(old(out)@) + owned(
            ws@,
            c.index as int,
            samples as int,
            rate as int,
        ),
        words_fit(final(out)@),
{
    let ghost (k, n, r) = (c.index as int, samples as int, rate as int);
    let mut i: usize = 0;
    assert(word_views(out@) =~= word_views(out@) + owned(ws@.take(0), k, n, r));
    while i < ws.len()
        invariant
            i <= ws@.len(),
            words_fit(ws@),
            words_fit(out@),
            c.index < 0xffff_ffff,
            (k, n, r) == (c.index as int, samples as int, rate as int),
            word_views(out@) == word_views(old(out)@) + owned(ws@.take(i as int), k, n, r),
        decreases ws@.len() - i,
    {
        assert(ws@.take(i + 1).drop_last() =~= ws@.take(i as int));
        let ghost before = out@;
        if belongs(c, samples, rate, &ws[i]) {
            out.push(copy_word(&ws[i]));
            assert(word_views(out@) =~= word_views(before).push(ws@[i as int]@));
        }
        assert(word_views(out@) =~= word_views(old(out)@) + owned(ws@.take(i + 1), k, n, r));
        i += 1;
    }
    assert(ws@.take(i as int) =~= ws@);
}

pub open spec fn word_starts(ws: Seq<WordView>) -> Seq<i64> {
    Seq::new(ws.len(), |k: int| ws[k].start)
}

/// The words by the time they start; words that start together stay in the
/// order they came in.
pub open spec fn by_start(ws: Seq<WordView>) -> Seq<WordView> {
    let order = order_of(word_starts(ws));
    Seq::new(order.len(), |k: int| ws[order[k] as int])
}

/// Orders the transcript by time.
pub fn order_words(ws: &Vec<Word>) -> (out: Vec<Word>)
    requires
        words_fit(ws@),
    ensures
        word_views(out@) == by_start(word_views(ws@)),
        out@.len() == ws@.len(),
        words_fit(out@),
        forall|i: int, j: int| 0 <= i < j < out@.len() ==> out@[i].start <= out@[j].start,
{
    let mut keys: Vec<i64> = Vec::new();
    let mut i: usize = 0;
    while i < ws.len()
        invariant
            i <= ws@.len(),
            keys@ == word_starts(word_views(ws@)).take(i as int),
        decreases ws@.len() - i,
    {
        keys.push(ws[i].start);
        assert(keys@ =~= word_starts(word_views(ws@)).take(i + 1));
        i += 1;
    }
    let ghost all = word_views(ws@);
    assert(keys@ =~= word_starts(all));
    let order = stable_order(&keys);
    let mut out: Vec<Word> = Vec::new();
    let mut k: usize = 0;
    while k < order.len()
        invariant
            k <= order@.len(),
            words_fit(ws@),
            words_fit(out@),
            all == word_views(ws@),
            keys@ == word_starts(all),
            order@ == order_of(keys@),
            is_order(keys@, order@),
            out@.len() == k,
            forall|j: int|
                0 <= j < k ==> #[trigger] out@[j]@ == all[order@[j] as int],
        decreases order@.len() - k,
    {
        out.push(copy_word(&ws[order[k]]));
        k += 1;
    }
    assert(word_views(out@) =~= by_start(all));
    assert forall|i: int, j: int| 0 <= i < j < out@.len() implies out@[i].start <= out@[j].start by {
        assert(out@[i]@ == all[order@[i] as int]);
        assert(out@[j]@ == all[order@[j] as int]);
        assert(keys@[order@[i] as int] <= keys@[order@[j] as int]);
    }
    out
}

// ---------------------------------------------------------------------------
// No text is lost
// ---------------------------------------------------------------------------
/// All the text of the pieces, special tokens apart.
pub open spec fn spoken_text(pieces: Seq<Piece>) -> Seq<char>
    decreases pieces.len(),
{
    if pieces.len() == 0 {
        Seq::empty()
    } else if is_special(pieces.last().text@) {
        spoken_text(pieces.drop_last())
    } else {
        spoken_text(pieces.drop_last()) + pieces.last().text@
    }
}

pub open spec fn texts(ws: Seq<WordView>) -> Seq<Seq<char>> {
    Seq::new(ws.len(), |k: int| ws[k].text)
}

/// Grouping the pieces of a chunk loses no word and makes up none.
pub proof fn law_grouping_keeps_the_text(pieces: Seq<Piece>, cs: int)
    ensures
        all_words(texts(closed(assembled(pieces, cs)))) == words(spoken_text(pieces)),
{
    let s = lemma_assembled_text(pieces, cs);
    let a = assembled(pieces, cs);
    if a.open {
        lemma_closed_text(a);
        lemma_words_meet(s, a.text);
    } else {
        assert(spoken_text(pieces) =~= s);
    }
}

/// Closing a word adds its text, also where the text trims to nothing.
proof fn lemma_closed_text(a: Assembly)
    requires
        a.open,
    ensures
        all_words(texts(closed(a))) == all_words(texts(a.words)) + words(a.text),
{
    lemma_words_trimmed(a.text);
    if trimmed(a.text).len() > 0 {
        let c = closed(a);
        assert(texts(c).drop_last() =~= texts(a.words));
        assert(texts(c).last() == a.text);
    } else {
        assert(trimmed(a.text) =~= Seq::<char>::empty());
        assert(words(a.text) =~= Seq::<Seq<char>>::empty());
        assert(all_words(texts(a.words)) + words(a.text) =~= all_words(texts(a.words)));
    }
}

/// The text read so far is the text of the closed words, which is returned,
/// and then that of the open one.
proof fn lemma_assembled_text(pieces: Seq<Piece>, cs: int) -> (s: Seq<char>)
    ensures
        ({
            let a = assembled(pieces, cs);
            &&& spoken_text(pieces) == s + a.text
            &&& words(s) == all_words(texts(a.words))
            &&& !a.open ==> a.text.len() == 0 && s.len() == 0 && a.words.len() == 0
            &&& a.text.len() > 0 ==> is_space(a.text[0]) || s.len() == 0
            &&& a.text.len() == 0 ==> s.len() == 0
        }),
    decreases pieces.len(),
{
    if pieces.len() == 0 {
        let s = Seq::<char>::empty();
        assert(texts(assembled(pieces, cs).words) =~= Seq::<Seq<char>>::empty());
        assert(words(s) =~= Seq::<Seq<char>>::empty());
        s
    } else {
        let s = lemma_assembled_text(pieces.drop_last(), cs);
        let a = assembled(pieces.drop_last(), cs);
        let p = pieces.last().text@;
        if is_special(p) {
            s
        } else if a.open && !starts_word(p) {
            assert(s + a.text + p =~= s + (a.text + p));
            s
        } else if a.open {
            lemma_closed_text(a);
            lemma_words_meet(s, a.text);
            s + a.text
        } else {
            assert(s + a.text + p =~= s + p);
            assert(closed(a) == a.words);
            s
        }
    }
}

// ---------------------------------------------------------------------------
// Laws
// ---------------------------------------------------------------------------
/// A chunk starts every 27 s and lasts 30 s, as far as the recording goes, and
/// is worth reading when half a second or more of it is left.
pub proof fn law_chunks_overlap_by_three_seconds(k: int, n: int, rate: int)
    requires
        0 <= rate,
    ensures
        chunk_first(k, rate) == 27 * k * rate,
        chunk_full_end(k, rate) == 27 * k * rate + 30 * rate,
        chunk_full_end(k, rate) - chunk_first(k + 1, rate) == 3 * rate,
        is_decoded(k, n, rate) <==> 27 * k * rate < n && 2 * (n - 27 * k * rate) >= rate,
{
    assert(27 * (k + 1) * rate == 27 * k * rate + 27 * rate) by (nonlinear_arith);
}

/// Between two chunks that are both read, a word belongs to the later one from
/// the middle of their overlap on: 1.5 s after that chunk starts. `sum` is twice
/// the middle of the word.
pub proof fn law_the_overlap_is_split_in_the_middle(k: int, n: int, rate: int, sum: int)
    requires
        rate > 0,
        1 <= k,
        is_decoded(k + 1, n, rate),
        (2 * 27 * (k + 1) + 3) * 1_000_000 * rate < 2 * n * 1_000_000,
    ensures
        owns(k, n, rate, sum) <==> 2 * (27_000_000 * k + 1_500_000) <= sum < 2 * (27_000_000 * (k
            + 1) + 1_500_000),
{
    let (lo, hi) = (2 * (27_000_000 * k + 1_500_000), 2 * (27_000_000 * (k + 1) + 1_500_000));
    assert(owned_from(k, rate) == lo * rate) by (nonlinear_arith)
        requires
            owned_from(k, rate) == (2 * 27 * k + 3) * 1_000_000 * rate,
            lo == 2 * (27_000_000 * k + 1_500_000),
    ;
    assert(owned_to(k, n, rate) == hi * rate) by (nonlinear_arith)
        requires
            owned_to(k, n, rate) == (2 * 27 * (k + 1) + 3) * 1_000_000 * rate,
            hi == 2 * (27_000_000 * (k + 1) + 1_500_000),
    ;
    assert((lo * rate <= sum * rate) <==> lo <= sum) by (nonlinear_arith)
        requires
            rate > 0,
    ;
    assert((sum * rate < hi * rate) <==> sum < hi) by (nonlinear_arith)
        requires
            rate > 0,
    ;
}

/// How sure the pieces that are spoken are, in all.
pub open spec fn spoken_sum(pieces: Seq<Piece>) -> int
    decreases pieces.len(),
{
    if pieces.len() == 0 {
        0
    } else {
        spoken_sum(pieces.drop_last()) + (if is_special(pieces.last().text@) {
            0
        } else {
            pieces.last().prob as int
        })
    }
}

/// How many pieces are spoken.
pub open spec fn spoken_count(pieces: Seq<Piece>) -> int
    decreases pieces.len(),
{
    if pieces.len() == 0 {
        0
    } else {
        spoken_count(pieces.drop_last()) + (if is_special(pieces.last().text@) {
            0int
        } else {
            1
        })
    }
}

/// The word is made of the pieces from the `a`-th up to the `b`-th: it starts
/// with the first of them and ends with the last that is spoken, which is the
/// `l`-th, and none between begins a word of its own. Times are in hundredths
/// of a second from the chunk's start.
pub open spec fn word_of(
    pieces: Seq<Piece>,
    cs: int,
    a: int,
    l: int,
    b: int,
    text: Seq<char>,
    start: int,
    end: int,
) -> bool {
    &&& 0 <= a <= l < b <= pieces.len()
    &&& !is_special(pieces[a].text@)
    &&& !is_special(pieces[l].text@)
    &&& forall|m: int| l < m < b ==> is_special((#[trigger] pieces[m]).text@)
    &&& forall|m: int|
        a < m < b ==> is_special((#[trigger] pieces[m]).text@) || !starts_word(pieces[m].text@)
    &&& start == cs + 10_000 * pieces[a].t0
    &&& end == cs + 10_000 * pieces[l].t1
    &&& text == spoken_text(pieces.subrange(a, b))
}

/// The word is made of those pieces, and is as sure as they are on average,
/// rounded down.
pub open spec fn made_of(pieces: Seq<Piece>, cs: int, w: WordView, a: int, l: int, b: int) -> bool {
    let part = pieces.subrange(a, b);
    let n = spoken_count(part);
    &&& word_of(pieces, cs, a, l, b, w.text, w.start as int, w.end as int)
    &&& n * w.prob <= spoken_sum(part) < n * w.prob + n
}

/// The piece is spoken and begins a word.
pub open spec fn begins(p: Piece) -> bool {
    !is_special(p.text@) && starts_word(p.text@)
}

/// The word goes up to a piece that begins the next one.
pub open spec fn is_inner_word(pieces: Seq<Piece>, cs: int, w: WordView) -> bool {
    exists|a: int, l: int, b: int| #[trigger]
        made_of(pieces, cs, w, a, l, b) && b < pieces.len() && begins(pieces[b])
}

proof fn lemma_spoken_bounds(pieces: Seq<Piece>)
    requires
        pieces_fit(pieces),
    ensures
        0 <= spoken_count(pieces) <= pieces.len(),
        0 <= spoken_sum(pieces) <= 1_000_000 * spoken_count(pieces),
    decreases pieces.len(),
{
    if pieces.len() > 0 {
        let front = pieces.drop_last();
        assert forall|k: int| 0 <= k < front.len() implies piece_fits(#[trigger] front[k]) by {
            assert(piece_fits(pieces[k]));
        }
        lemma_spoken_bounds(front);
        assert(piece_fits(pieces[pieces.len() - 1]));
    }
}

/// What the assembly holds once the pieces are in: the open word is made of the
/// last of them, from the `a`-th on.
spec fn holds_pieces(pieces: Seq<Piece>, cs: int, a: int, l: int) -> bool {
    let g = assembled(pieces, cs);
    let n = pieces.len() as int;
    let part = pieces.subrange(a, n);
    &&& g.open ==> word_of(pieces, cs, a, l, n, g.text, g.start, g.end)
    &&& g.open ==> g.prob_sum == spoken_sum(part) && g.count == spoken_count(part)
    &&& g.open ==> g.count > 0
    &&& !g.open ==> forall|m: int| 0 <= m < n ==> is_special((#[trigger] pieces[m]).text@)
    &&& forall|k: int| 0 <= k < g.words.len() ==> is_inner_word(pieces, cs, #[trigger] g.words[k])
}

proof fn lemma_inner_word_stays(pieces: Seq<Piece>, p: Piece, cs: int, w: WordView)
    requires
        is_inner_word(pieces, cs, w),
    ensures
        is_inner_word(pieces.push(p), cs, w),
{
    let (a, l, b) = choose|a: int, l: int, b: int| #[trigger]
        made_of(pieces, cs, w, a, l, b) && b < pieces.len() && begins(pieces[b]);
    let q = pieces.push(p);
    assert(q.subrange(a, b) =~= pieces.subrange(a, b));
    assert(forall|m: int| 0 <= m < pieces.len() ==> #[trigger] q[m] == pieces[m]);
    assert(made_of(q, cs, w, a, l, b));
}

/// The word that the open assembly closes to.
proof fn lemma_closed_word(pieces: Seq<Piece>, cs: int, a: int, l: int)
    requires
        pieces_fit(pieces),
        0 <= cs <= 800_000_000_000_000_000,
        holds_pieces(pieces, cs, a, l),
        assembled(pieces, cs).open,
        trimmed(assembled(pieces, cs).text).len() > 0,
    ensures
        made_of(pieces, cs, closed(assembled(pieces, cs)).last(), a, l, pieces.len() as int),
{
    let g = assembled(pieces, cs);
    let n = pieces.len() as int;
    let part = pieces.subrange(a, n);
    assert forall|k: int| 0 <= k < part.len() implies piece_fits(#[trigger] part[k]) by {
        assert(piece_fits(pieces[a + k]));
    }
    lemma_spoken_bounds(part);
    assert(piece_fits(pieces[a]) && piece_fits(pieces[l]));
    let q = g.prob_sum / g.count;
    crate::plan::lemma_quotient(g.prob_sum, g.count, q);
    assert(0 <= q <= 1_000_000) by (nonlinear_arith)
        requires
            g.count > 0,
            0 <= g.prob_sum <= 1_000_000 * g.count,
            g.count * q <= g.prob_sum < g.count * q + g.count,
    ;
}

proof fn lemma_holds_pieces(pieces: Seq<Piece>, cs: int) -> (r: (int, int))
    requires
        pieces_fit(pieces),
        0 <= cs <= 800_000_000_000_000_000,
    ensures
        holds_pieces(pieces, cs, r.0, r.1),
    decreases pieces.len(),
{
    if pieces.len() == 0 {
        (0, 0)
    } else {
        let front = pieces.drop_last();
        let n = front.len() as int;
        let p = pieces[n];
        assert(pieces =~= front.push(p));
        assert forall|k: int| 0 <= k < front.len() implies piece_fits(#[trigger] front[k]) by {
            assert(piece_fits(pieces[k]));
        }
        let (a, l) = lemma_holds_pieces(front, cs);
        let g = assembled(front, cs);
        let h = assembled(pieces, cs);
        assert(forall|m: int| 0 <= m < n ==> #[trigger] front[m] == pieces[m]);
        assert forall|k: int| 0 <= k < g.words.len() implies is_inner_word(
            pieces,
            cs,
            #[trigger] g.words[k],
        ) by {
            lemma_inner_word_stays(front, p, cs, g.words[k]);
        }
        if is_special(p.text@) {
            if g.open {
                assert(pieces.subrange(a, n + 1).drop_last() =~= front.subrange(a, n));
                assert(word_of(pieces, cs, a, l, n + 1, h.text, h.start, h.end));
            }
            (a, l)
        } else if g.open && !starts_word(p.text@) {
            assert(pieces.subrange(a, n + 1).drop_last() =~= front.subrange(a, n));
            assert(word_of(pieces, cs, a, n, n + 1, h.text, h.start, h.end));
            (a, n)
        } else {
            let one = pieces.subrange(n, n + 1);
            let none = one.drop_last();
            assert(none.len() == 0);
            assert(one.last() == p);
            assert(spoken_text(none).len() == 0 && spoken_sum(none) == 0 && spoken_count(none)
                == 0);
            assert(spoken_text(one) =~= p.text@);
            assert(spoken_sum(one) == p.prob && spoken_count(one) == 1);
            assert(word_of(pieces, cs, n, n, n + 1, h.text, h.start, h.end));
            if g.open && trimmed(g.text).len() > 0 {
                lemma_closed_word(front, cs, a, l);
                let w = closed(g).last();
                assert(pieces.subrange(a, n) =~= front.subrange(a, n));
                assert(made_of(pieces, cs, w, a, l, n));
                assert(begins(pieces[n]));
                assert(is_inner_word(pieces, cs, w));
                assert forall|k: int| 0 <= k < h.words.len() implies is_inner_word(
                    pieces,
                    cs,
                    #[trigger] h.words[k],
                ) by {
                    if k < g.words.len() {
                        assert(h.words[k] == g.words[k]);
                    } else {
                        assert(h.words[k] == w);
                    }
                }
            }
            (n, n)
        }
    }
}

/// Every word of a chunk stands for the pieces it is made of: it starts when
/// the first of them does and ends when the last that is spoken does, counted
/// from the chunk's start, says what they say, and is as sure as they are on
/// average. It goes up to the piece that begins the next word, or to the end.
pub proof fn law_a_word_is_made_of_its_pieces(pieces: Seq<Piece>, cs: int, k: int) -> (r: (
    int,
    int,
    int,
))
    requires
        pieces_fit(pieces),
        0 <= cs <= 800_000_000_000_000_000,
        0 <= k < closed(assembled(pieces, cs)).len(),
    ensures
        made_of(pieces, cs, closed(assembled(pieces, cs))[k], r.0, r.1, r.2),
        r.2 == pieces.len() || begins(pieces[r.2]),
{
    let (a, l) = lemma_holds_pieces(pieces, cs);
    let g = assembled(pieces, cs);
    if k < g.words.len() {
        let w = g.words[k];
        assert(is_inner_word(pieces, cs, w));
        choose|a: int, l: int, b: int| #[trigger]
            made_of(pieces, cs, w, a, l, b) && b < pieces.len() && begins(pieces[b])
    } else {
        lemma_closed_word(pieces, cs, a, l);
        (a, l, pieces.len() as int)
    }
}

/// Of the words of a chunk, those are kept that belong to it, in order, and no
/// others.
pub proof fn law_only_owned_words_are_kept(ws: Seq<Word>, next: Word, k: int, n: int, rate: int)
    ensures
        owned(Seq::empty(), k, n, rate).len() == 0,
        owned(ws.push(next), k, n, rate) == (if owns(k, n, rate, next.start + next.end) {
            owned(ws, k, n, rate).push(next@)
        } else {
            owned(ws, k, n, rate)
        }),
{
    assert(ws.push(next).drop_last() =~= ws);
}

} // verus!
