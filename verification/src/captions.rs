//! Captions: a word-level transcript becomes an SRT that stays in sync with
//! the edit. Words are grouped into cues, every timing goes through the plan's
//! time map, lines break at sentences and clauses, time is shared by character
//! count, and each cue stays on screen long enough to read.
//!
//! The text is whatever the transcript says.
use vstd::prelude::*;

use crate::constants::TIME_MAX;
use crate::text::{
    all_words, bare, char_is_space, chars_of, is_space, is_word, joined, lemma_all_words_append,
    lemma_part_len, lemma_total_len_append, lemma_trimmed_ends, lemma_trimmed_len,
    lemma_words_are_words,
    lemma_words_concat, lemma_words_len, lemma_words_meet, lemma_words_one, lemma_words_trimmed,
    lower, same, split_whitespace, text_of, total_len, trim, trim_symbols, trimmed, views, words,
};

pub use crate::cues::{group_cues, ts, write_srt};

verus! {

/// One word of the transcript, in source time.
#[derive(Debug)]
pub struct Word {
    pub text: String,
    pub start: i64,
    pub end: i64,
    /// How sure the transcriber was, in millionths.
    pub prob: i64,
}

impl Word {
    pub open spec fn wf(&self) -> bool {
        &&& -TIME_MAX <= self.start <= TIME_MAX
        &&& -TIME_MAX <= self.end <= TIME_MAX
    }
}

pub open spec fn words_fit(words: Seq<Word>) -> bool {
    forall|k: int| 0 <= k < words.len() ==> (#[trigger] words[k]).wf()
}

/// Logical line length used when splitting a long cue.
pub const MAXC: usize = 84;

/// A cue this long is closed without waiting for the end of its sentence.
pub const MAX_CUE: usize = 252;

/// Display wrap width.
pub const WRAP: usize = 44;

/// Display lines per cue.
pub const MAX_LINES: usize = 2;

/// Reading speed, characters per second.
pub const CPS: u64 = 18;

/// Floor on how short a cue may be.
pub const MIN_CUE_US: i64 = 400_000;

/// Gap left before the next cue where two would overlap.
pub const CUE_GAP_US: i64 = 50_000;

/// Character count, not bytes: widths are measured in characters.
pub fn clen(s: &str) -> (n: usize)
    ensures
        n == s@.len(),
{
    s.unicode_len()
}

// ---------------------------------------------------------------------------
// Wrapping
// ---------------------------------------------------------------------------
/// Greedy lines: each word goes on the line being filled while it fits.
pub open spec fn greedy(ws: Seq<Seq<char>>, width: int) -> Seq<Seq<char>>
    decreases ws.len(),
{
    if ws.len() == 0 {
        Seq::empty()
    } else {
        let r = greedy(ws.drop_last(), width);
        let w = ws.last();
        if r.len() > 0 && r.last().len() + 1 + w.len() <= width {
            r.drop_last().push(r.last() + seq![' '] + w)
        } else {
            r.push(w)
        }
    }
}

/// A text wrapped to `width` characters.
pub open spec fn wrapped(t: Seq<char>, width: int) -> Seq<Seq<char>> {
    greedy(words(t), width)
}

/// Appends `w` to the last line when it fits, else starts a line with it.
fn add_to_lines(lines: &mut Vec<String>, w: &str, width: usize)
    ensures
        views(final(lines)@) == ({
            let r = views(old(lines)@);
            if r.len() > 0 && r.last().len() + 1 + w@.len() <= width {
                r.drop_last().push(r.last() + seq![' '] + w@)
            } else {
                r.push(w@)
            }
        }),
{
    let n: usize = lines.len();
    let ghost r = views(lines@);
    if n > 0 {
        let last: usize = clen(lines[n - 1].as_str());
        let len: usize = clen(w);
        if last < width && len <= width - last - 1 {
            let mut line = lines[n - 1].clone();
            line.push(' ');
            line.append(w);
            assert(line@ =~= r.last() + seq![' '] + w@);
            lines.set(n - 1, line);
            assert(views(lines@) =~= r.drop_last().push(r.last() + seq![' '] + w@));
            return;
        }
    }
    lines.push(w.to_string());
    assert(views(lines@) =~= r.push(w@));
}

/// Greedy word wrap to `width` characters.
pub fn wrap(text: &str, width: usize) -> (lines: Vec<String>)
    ensures
        views(lines@) == wrapped(text@, width as int),
{
    let ws = split_whitespace(text);
    let mut lines: Vec<String> = Vec::new();
    let mut k: usize = 0;
    assert(views(lines@) =~= Seq::<Seq<char>>::empty());
    while k < ws.len()
        invariant
            k <= ws@.len(),
            views(ws@) == words(text@),
            views(lines@) == greedy(words(text@).take(k as int), width as int),
        decreases ws@.len() - k,
    {
        let ghost t1 = words(text@).take(k + 1);
        assert(t1.drop_last() =~= words(text@).take(k as int));
        assert(t1.last() == views(ws@)[k as int]);
        add_to_lines(&mut lines, ws[k].as_str(), width);
        k += 1;
    }
    assert(words(text@).take(k as int) =~= words(text@));
    lines
}

/// A line is within the width, or it is a single word that alone is too long.
pub open spec fn fits_or_single(line: Seq<char>, width: int) -> bool {
    line.len() <= width || words(line).len() == 1
}

proof fn lemma_greedy(ws: Seq<Seq<char>>, width: int)
    requires
        forall|i: int| 0 <= i < ws.len() ==> is_word(#[trigger] ws[i]),
    ensures
        all_words(greedy(ws, width)) == ws,
        forall|k: int|
            0 <= k < greedy(ws, width).len() ==> fits_or_single(
                #[trigger] greedy(ws, width)[k],
                width,
            ) && greedy(ws, width)[k].len() > 0,
    decreases ws.len(),
{
    if ws.len() > 0 {
        let front = ws.drop_last();
        let w = ws.last();
        assert(is_word(ws[ws.len() - 1]));
        assert forall|i: int| 0 <= i < front.len() implies is_word(#[trigger] front[i]) by {
            assert(front[i] == ws[i]);
        }
        lemma_greedy(front, width);
        lemma_words_one(w);
        let r = greedy(front, width);
        let g = greedy(ws, width);
        if r.len() > 0 && r.last().len() + 1 + w.len() <= width {
            lemma_words_concat(r.last(), ' ', w);
            assert(g.drop_last() =~= r.drop_last());
            assert(all_words(r) == all_words(r.drop_last()) + words(r.last()));
            assert(all_words(g) =~= (all_words(r.drop_last()) + words(r.last())) + seq![w]);
        } else {
            assert(g.drop_last() =~= r);
            assert(all_words(g) == all_words(r) + seq![w]);
        }
        assert(front + seq![w] =~= ws);
    } else {
        assert(all_words(greedy(ws, width)) =~= ws);
    }
}

/// Wrapping keeps every word, in order, and no line is too long unless it is
/// one word.
pub proof fn law_wrapping_keeps_words(t: Seq<char>, width: int)
    ensures
        all_words(wrapped(t, width)) == words(t),
        forall|k: int|
            0 <= k < wrapped(t, width).len() ==> fits_or_single(
                #[trigger] wrapped(t, width)[k],
                width,
            ) && wrapped(t, width)[k].len() > 0,
{
    lemma_words_are_words(t);
    lemma_greedy(words(t), width);
}

// ---------------------------------------------------------------------------
// Re-joining fragments
// ---------------------------------------------------------------------------
/// Neighbouring fragments joined wherever they fit a line together.
pub open spec fn rejoined(parts: Seq<Seq<char>>) -> Seq<Seq<char>>
    decreases parts.len(),
{
    if parts.len() == 0 {
        Seq::empty()
    } else {
        let r = rejoined(parts.drop_last());
        let p = trimmed(parts.last());
        if p.len() == 0 {
            r
        } else if r.len() > 0 && r.last().len() + 1 + p.len() <= MAXC {
            r.drop_last().push(r.last() + seq![' '] + p)
        } else {
            r.push(p)
        }
    }
}

/// Joins adjacent fragments that still fit a line together.
pub fn merge(parts: Vec<String>) -> (out: Vec<String>)
    ensures
        views(out@) == rejoined(views(parts@)),
{
    let mut out: Vec<String> = Vec::new();
    let mut k: usize = 0;
    assert(views(out@) =~= Seq::<Seq<char>>::empty());
    while k < parts.len()
        invariant
            k <= parts@.len(),
            views(out@) == rejoined(views(parts@).take(k as int)),
        decreases parts@.len() - k,
    {
        let ghost t1 = views(parts@).take(k + 1);
        assert(t1.drop_last() =~= views(parts@).take(k as int));
        assert(t1.last() == parts@[k as int]@);
        let p = trim(parts[k].as_str());
        if !p.as_str().is_empty() {
            add_to_lines(&mut out, p.as_str(), MAXC);
        }
        k += 1;
    }
    assert(views(parts@).take(k as int) =~= views(parts@));
    out
}

proof fn lemma_rejoined(parts: Seq<Seq<char>>)
    requires
        forall|k: int| 0 <= k < parts.len() ==> fits_or_single(#[trigger] parts[k], MAXC as int),
    ensures
        all_words(rejoined(parts)) == all_words(parts),
        forall|k: int|
            0 <= k < rejoined(parts).len() ==> fits_or_single(
                #[trigger] rejoined(parts)[k],
                MAXC as int,
            ),
    decreases parts.len(),
{
    if parts.len() > 0 {
        let front = parts.drop_last();
        assert forall|k: int| 0 <= k < front.len() implies fits_or_single(
            #[trigger] front[k],
            MAXC as int,
        ) by {
            assert(front[k] == parts[k]);
        }
        lemma_rejoined(front);
        let r = rejoined(front);
        let p = trimmed(parts.last());
        let j = rejoined(parts);
        assert(fits_or_single(parts[parts.len() - 1], MAXC as int));
        lemma_words_trimmed(parts.last());
        lemma_trimmed_len(parts.last());
        assert(all_words(parts) == all_words(front) + words(p));
        if p.len() == 0 {
            assert(p =~= Seq::<char>::empty());
            assert(words(p) =~= Seq::<Seq<char>>::empty());
            assert(all_words(front) + words(p) =~= all_words(front));
        } else if r.len() > 0 && r.last().len() + 1 + p.len() <= MAXC {
            lemma_words_concat(r.last(), ' ', p);
            assert(j.drop_last() =~= r.drop_last());
            assert(all_words(r) == all_words(r.drop_last()) + words(r.last()));
            assert(all_words(j) =~= (all_words(r.drop_last()) + words(r.last())) + words(p));
        } else {
            assert(j.drop_last() =~= r);
        }
    }
}

/// The parts that are left once they are trimmed and blank ones dropped.
pub open spec fn trimmed_parts(parts: Seq<Seq<char>>) -> Seq<Seq<char>>
    decreases parts.len(),
{
    if parts.len() == 0 {
        Seq::empty()
    } else {
        let r = trimmed_parts(parts.drop_last());
        let p = trimmed(parts.last());
        if p.len() == 0 {
            r
        } else {
            r.push(p)
        }
    }
}

/// Which parts each rejoined entry is made of.
pub open spec fn rejoined_groups(parts: Seq<Seq<char>>) -> Seq<Seq<Seq<char>>>
    decreases parts.len(),
{
    if parts.len() == 0 {
        Seq::empty()
    } else {
        let g = rejoined_groups(parts.drop_last());
        let r = rejoined(parts.drop_last());
        let p = trimmed(parts.last());
        if p.len() == 0 {
            g
        } else if r.len() > 0 && r.last().len() + 1 + p.len() <= MAXC {
            g.drop_last().push(g.last().push(p))
        } else {
            g.push(seq![p])
        }
    }
}

/// The parts of all groups, one after the other.
pub open spec fn ungrouped(groups: Seq<Seq<Seq<char>>>) -> Seq<Seq<char>>
    decreases groups.len(),
{
    if groups.len() == 0 {
        Seq::empty()
    } else {
        ungrouped(groups.drop_last()) + groups.last()
    }
}

/// An entry is its parts with a space between them, and one of several parts
/// fits a line.
pub open spec fn is_joined_group(entry: Seq<char>, group: Seq<Seq<char>>) -> bool {
    &&& group.len() > 0
    &&& entry == joined(group, seq![' '])
    &&& group.len() >= 2 ==> entry.len() <= MAXC
}

/// An entry as it comes out of a join: not blank, and trimmed.
pub open spec fn is_settled_entry(e: Seq<char>) -> bool {
    e.len() > 0 && !is_space(e[0]) && !is_space(e.last())
}

/// Nothing is left to do: every entry is trimmed, and no two neighbours fit a
/// line together.
pub open spec fn is_settled(entries: Seq<Seq<char>>) -> bool {
    &&& forall|k: int| 0 <= k < entries.len() ==> is_settled_entry(#[trigger] entries[k])
    &&& forall|k: int, l: int|
        0 <= k && l == k + 1 && l < entries.len() ==> (#[trigger] entries[k]).len() + 1 + (
        #[trigger] entries[l]).len() > MAXC
}

/// An entry that is trimmed already stays as it is.
proof fn lemma_settled_entry(e: Seq<char>)
    requires
        is_settled_entry(e),
    ensures
        trimmed(e) == e,
{
}

proof fn lemma_rejoining_settled(entries: Seq<Seq<char>>)
    requires
        is_settled(entries),
    ensures
        rejoined(entries) == entries,
    decreases entries.len(),
{
    if entries.len() > 0 {
        let front = entries.drop_last();
        let n = front.len() as int;
        assert forall|k: int| 0 <= k < front.len() implies is_settled_entry(
            #[trigger] front[k],
        ) by {
            assert(front[k] == entries[k]);
        }
        assert(is_settled(front));
        lemma_rejoining_settled(front);
        assert(is_settled_entry(entries[n]));
        lemma_settled_entry(entries[n]);
        if n > 0 {
            assert(entries[n - 1].len() + 1 + entries[n].len() > MAXC);
            assert(rejoined(front).last() == entries[n - 1]);
        }
        assert(rejoined(entries) =~= front.push(entries[n]));
        assert(front.push(entries[n]) =~= entries);
    } else {
        assert(rejoined(entries) =~= entries);
    }
}

proof fn lemma_rejoined_step(parts: Seq<Seq<char>>)
    ensures
        is_settled(rejoined(parts)),
        ungrouped(rejoined_groups(parts)) == trimmed_parts(parts),
        rejoined_groups(parts).len() == rejoined(parts).len(),
        forall|k: int|
            0 <= k < rejoined(parts).len() ==> is_joined_group(
                #[trigger] rejoined(parts)[k],
                rejoined_groups(parts)[k],
            ),
        joined(rejoined(parts), seq![' ']) == joined(trimmed_parts(parts), seq![' ']),
        rejoined(parts).len() == 0 <==> trimmed_parts(parts).len() == 0,
    decreases parts.len(),
{
    let sep = seq![' '];
    if parts.len() == 0 {
        assert(ungrouped(rejoined_groups(parts)) =~= trimmed_parts(parts));
        return;
    }
    let front = parts.drop_last();
    lemma_rejoined_step(front);
    let r = rejoined(front);
    let g = rejoined_groups(front);
    let t = trimmed_parts(front);
    let p = trimmed(parts.last());
    let r2 = rejoined(parts);
    let g2 = rejoined_groups(parts);
    let t2 = trimmed_parts(parts);
    lemma_trimmed_ends(parts.last());
    if p.len() == 0 {
        return;
    }
    let n = r.len() as int;
    assert(t2.drop_last() =~= t && t2.last() == p);
    assert(joined(t2, sep) =~= if t.len() == 0 {
        p
    } else {
        joined(t, sep) + sep + p
    });
    if n > 0 && r.last().len() + 1 + p.len() <= MAXC {
        let e = r.last() + sep + p;
        let h = g.last().push(p);
        assert(is_settled_entry(r[n - 1]));
        assert(is_joined_group(r[n - 1], g[n - 1]));
        assert(r2 =~= r.drop_last().push(e));
        assert(g2.drop_last() =~= g.drop_last() && g2.last() == h);
        assert(ungrouped(g2) =~= ungrouped(g.drop_last()) + g.last() + seq![p]);
        assert(e[0] == r.last()[0] && e.last() == p.last());
        assert(h.drop_last() =~= g.last());
        assert(joined(h, sep) =~= e);
        assert(r2.drop_last() =~= r.drop_last());
        assert(joined(r2, sep) =~= joined(r, sep) + sep + p) by {
            if n == 1 {
                assert(r2[0] == e);
            } else {
                assert(joined(r, sep) == joined(r.drop_last(), sep) + sep + r.last());
                assert(joined(r2, sep) == joined(r2.drop_last(), sep) + sep + e);
            }
        }
        assert forall|k: int| 0 <= k < r2.len() implies is_settled_entry(#[trigger] r2[k])
            && is_joined_group(r2[k], g2[k]) by {
            if k < n - 1 {
                assert(r2[k] == r[k] && g2[k] == g[k]);
            }
        }
        assert forall|k: int, l: int| 0 <= k && l == k + 1 && l < r2.len() implies (
        #[trigger] r2[k]).len() + 1 + (#[trigger] r2[l]).len() > MAXC by {
            assert(r[k].len() + 1 + r[l].len() > MAXC);
        }
    } else {
        assert(r2 =~= r.push(p));
        assert(g2 =~= g.push(seq![p]));
        assert(g2.drop_last() =~= g && r2.drop_last() =~= r);
        assert(ungrouped(g2) =~= t.push(p));
        assert(joined(seq![p], sep) =~= p);
        assert(joined(r2, sep) =~= joined(t2, sep)) by {
            if n > 0 {
                assert(joined(r2, sep) == joined(r2.drop_last(), sep) + sep + r2.last());
            } else {
                assert(r2[0] == p);
            }
        }
        assert forall|k: int| 0 <= k < r2.len() implies is_settled_entry(#[trigger] r2[k])
            && is_joined_group(r2[k], g2[k]) by {
            if k < n {
                assert(r2[k] == r[k] && g2[k] == g[k]);
            }
        }
        assert forall|k: int, l: int| 0 <= k && l == k + 1 && l < r2.len() implies (
        #[trigger] r2[k]).len() + 1 + (#[trigger] r2[l]).len() > MAXC by {
            if l < n {
                assert(r[k].len() + 1 + r[l].len() > MAXC);
            }
        }
    }
}

/// Re-joining leaves nothing out and nothing to do. Each entry is a run of
/// neighbouring parts, trimmed and without the blank ones, with a space between
/// them, and all entries together are all parts. An entry of several parts fits
/// a line, and no two neighbouring entries would.
pub proof fn law_rejoining_joins_all_it_can(parts: Seq<Seq<char>>)
    ensures
        joined(rejoined(parts), seq![' ']) == joined(trimmed_parts(parts), seq![' ']),
        ungrouped(rejoined_groups(parts)) == trimmed_parts(parts),
        rejoined_groups(parts).len() == rejoined(parts).len(),
        forall|k: int|
            0 <= k < rejoined(parts).len() ==> is_joined_group(
                #[trigger] rejoined(parts)[k],
                rejoined_groups(parts)[k],
            ),
        forall|k: int, l: int|
            0 <= k && l == k + 1 && l < rejoined(parts).len() ==> (#[trigger] rejoined(
                parts,
            )[k]).len() + 1 + (#[trigger] rejoined(parts)[l]).len() > MAXC,
{
    lemma_rejoined_step(parts);
}

/// Joining what was joined changes nothing more.
pub proof fn law_rejoining_settles(parts: Seq<Seq<char>>)
    ensures
        rejoined(rejoined(parts)) == rejoined(parts),
{
    lemma_rejoined_step(parts);
    lemma_rejoining_settled(rejoined(parts));
}

// ---------------------------------------------------------------------------
// Splitting after punctuation
// ---------------------------------------------------------------------------
/// A delimiter at `i` followed by white space ends a fragment.
pub open spec fn is_boundary(t: Seq<char>, delims: Seq<char>, i: int) -> bool {
    delims.contains(t[i]) && i + 1 < t.len() && is_space(t[i + 1])
}

pub open spec fn push_trimmed(parts: Seq<Seq<char>>, p: Seq<char>) -> Seq<Seq<char>> {
    if trimmed(p).len() > 0 {
        parts.push(trimmed(p))
    } else {
        parts
    }
}

/// The fragments that end within the first `n` characters, and where the next
/// one starts.
pub open spec fn split_scan(t: Seq<char>, delims: Seq<char>, n: int) -> (Seq<Seq<char>>, int)
    decreases n,
{
    if n <= 0 {
        (Seq::empty(), 0)
    } else {
        let (parts, from) = split_scan(t, delims, n - 1);
        if is_boundary(t, delims, n - 1) {
            (push_trimmed(parts, t.subrange(from, n)), n)
        } else {
            (parts, from)
        }
    }
}

/// The text split after each delimiter that white space follows; the delimiter
/// stays on the left.
pub open spec fn split_after_of(t: Seq<char>, delims: Seq<char>) -> Seq<Seq<char>> {
    let (parts, from) = split_scan(t, delims, t.len() as int);
    push_trimmed(parts, t.subrange(from, t.len() as int))
}

fn holds(delims: &Vec<char>, c: char) -> (b: bool)
    ensures
        b == delims@.contains(c),
{
    let mut k: usize = 0;
    while k < delims.len()
        invariant
            k <= delims@.len(),
            forall|m: int| 0 <= m < k ==> delims@[m] != c,
        decreases delims@.len() - k,
    {
        if delims[k] == c {
            return true;
        }
        k += 1;
    }
    false
}

/// Splits after any delimiter that white space follows, keeping the delimiter
/// on the left piece.
pub fn split_after(t: &str, delims: &Vec<char>) -> (parts: Vec<String>)
    ensures
        views(parts@) == split_after_of(t@, delims@),
{
    let v = chars_of(t);
    let n: usize = v.len();
    let mut parts: Vec<String> = Vec::new();
    let mut from: usize = 0;
    let mut i: usize = 0;
    assert(views(parts@) =~= Seq::<Seq<char>>::empty());
    while i < n
        invariant
            from <= i <= n,
            n == v@.len(),
            v@ == t@,
            split_scan(t@, delims@, i as int) == (views(parts@), from as int),
        decreases n - i,
    {
        if holds(delims, v[i]) && n - i > 1 && char_is_space(v[i + 1]) {
            let ghost before = views(parts@);
            let p = trim(text_of(&v, from, i + 1).as_str());
            if !p.as_str().is_empty() {
                parts.push(p);
                assert(views(parts@) =~= before.push(p@));
            }
            from = i + 1;
        }
        i += 1;
    }
    let ghost before = views(parts@);
    let p = trim(text_of(&v, from, n).as_str());
    if !p.as_str().is_empty() {
        parts.push(p);
        assert(views(parts@) =~= before.push(p@));
    }
    parts
}

proof fn lemma_push_trimmed(parts: Seq<Seq<char>>, p: Seq<char>)
    ensures
        all_words(push_trimmed(parts, p)) == all_words(parts) + words(p),
        total_len(push_trimmed(parts, p)) <= total_len(parts) + p.len(),
        total_len(push_trimmed(parts, p)) + push_trimmed(parts, p).len() <= total_len(parts)
            + parts.len() + p.len() + 1,
        p.len() > 0 && is_space(p[0]) ==> total_len(push_trimmed(parts, p)) + push_trimmed(
            parts,
            p,
        ).len() <= total_len(parts) + parts.len() + p.len(),
{
    lemma_words_trimmed(p);
    lemma_trimmed_len(p);
    if trimmed(p).len() > 0 {
        assert(parts.push(trimmed(p)).drop_last() =~= parts);
    } else {
        assert(trimmed(p) =~= Seq::<char>::empty());
        assert(words(trimmed(p)) =~= Seq::<Seq<char>>::empty());
        assert(all_words(parts) + words(p) =~= all_words(parts));
    }
}

proof fn lemma_split_scan(t: Seq<char>, delims: Seq<char>, n: int)
    requires
        0 <= n <= t.len(),
    ensures
        ({
            let (parts, from) = split_scan(t, delims, n);
            &&& 0 <= from <= n
            &&& from > 0 && from < t.len() ==> is_space(t[from])
            &&& all_words(parts) == words(t.take(from))
            &&& total_len(parts) <= from
            &&& from == 0 ==> parts.len() == 0
            &&& total_len(parts) + parts.len() <= from + 1
            &&& forall|k: int| 0 <= k < parts.len() ==> (#[trigger] parts[k]).len() > 0
        }),
    decreases n,
{
    if n > 0 {
        lemma_split_scan(t, delims, n - 1);
        let (parts, from) = split_scan(t, delims, n - 1);
        if is_boundary(t, delims, n - 1) {
            let p = t.subrange(from, n);
            lemma_push_trimmed(parts, p);
            lemma_words_meet(t.take(from), p);
            assert(t.take(from) + p =~= t.take(n));
        }
    } else {
        assert(t.take(0) =~= Seq::<char>::empty());
        assert(words(t.take(0)) =~= Seq::<Seq<char>>::empty());
    }
}

/// Splitting after punctuation keeps the words, and where there is more than
/// one fragment each is shorter than the text.
proof fn lemma_split_after(t: Seq<char>, delims: Seq<char>)
    ensures
        all_words(split_after_of(t, delims)) == words(t),
        total_len(split_after_of(t, delims)) + split_after_of(t, delims).len() <= t.len() + 1,
        split_after_of(t, delims).len() > 1 ==> forall|k: int|
            0 <= k < split_after_of(t, delims).len() ==> (#[trigger] split_after_of(
                t,
                delims,
            )[k]).len() < t.len(),
{
    let n = t.len() as int;
    lemma_split_scan(t, delims, n);
    let (parts, from) = split_scan(t, delims, n);
    let p = t.subrange(from, n);
    lemma_push_trimmed(parts, p);
    lemma_words_meet(t.take(from), p);
    assert(t.take(from) + p =~= t);
    let all = split_after_of(t, delims);
    assert forall|k: int| 0 <= k < all.len() implies (#[trigger] all[k]).len() > 0 by {
        if k < parts.len() {
            assert(all[k] == parts[k]);
        }
    }
    if all.len() > 1 {
        assert forall|k: int| 0 <= k < all.len() implies (#[trigger] all[k]).len() < t.len() by {
            lemma_part_len(all, k);
        }
    }
}

// ---------------------------------------------------------------------------
// Splitting before keywords
// ---------------------------------------------------------------------------
/// Words that open a clause.
pub open spec fn is_clause_word(w: Seq<char>) -> bool {
    ||| w == "and"@
    ||| w == "but"@
    ||| w == "so"@
    ||| w == "because"@
    ||| w == "which"@
    ||| w == "that"@
    ||| w == "then"@
    ||| w == "or"@
}

fn clause_word(w: &str) -> (b: bool)
    ensures
        b == is_clause_word(w@),
{
    same(w, "and") || same(w, "but") || same(w, "so") || same(w, "because") || same(w, "which")
        || same(w, "that") || same(w, "then") || same(w, "or")
}

/// The clauses of a list of words: each keyword starts a new one.
pub open spec fn clauses(ws: Seq<Seq<char>>) -> Seq<Seq<char>>
    decreases ws.len(),
{
    if ws.len() == 0 {
        Seq::empty()
    } else {
        let r = clauses(ws.drop_last());
        let w = ws.last();
        if r.len() == 0 || is_clause_word(lower(bare(w))) {
            r.push(w)
        } else {
            r.drop_last().push(r.last() + seq![' '] + w)
        }
    }
}

/// Splits before a word that opens a clause, so that it starts the next piece.
pub fn split_before_keywords(t: &str) -> (parts: Vec<String>)
    ensures
        views(parts@) == clauses(words(t@)),
{
    let ws = split_whitespace(t);
    let mut parts: Vec<String> = Vec::new();
    let mut k: usize = 0;
    assert(views(parts@) =~= Seq::<Seq<char>>::empty());
    while k < ws.len()
        invariant
            k <= ws@.len(),
            views(ws@) == words(t@),
            views(parts@) == clauses(words(t@).take(k as int)),
        decreases ws@.len() - k,
    {
        let ghost t1 = words(t@).take(k + 1);
        assert(t1.drop_last() =~= words(t@).take(k as int));
        assert(t1.last() == views(ws@)[k as int]);
        let ghost before = views(parts@);
        let n: usize = parts.len();
        let opens = clause_word(trim_symbols(ws[k].as_str()).as_str().to_lowercase().as_str());
        if n == 0 || opens {
            parts.push(ws[k].clone());
            assert(views(parts@) =~= before.push(ws@[k as int]@));
        } else {
            let mut line = parts[n - 1].clone();
            line.push(' ');
            line.append(ws[k].as_str());
            assert(line@ =~= before.last() + seq![' '] + ws@[k as int]@);
            parts.set(n - 1, line);
            assert(views(parts@) =~= before.drop_last().push(
                before.last() + seq![' '] + ws@[k as int]@,
            ));
        }
        k += 1;
    }
    assert(words(t@).take(k as int) =~= words(t@));
    parts
}

proof fn lemma_clauses(ws: Seq<Seq<char>>)
    requires
        forall|i: int| 0 <= i < ws.len() ==> is_word(#[trigger] ws[i]),
    ensures
        all_words(clauses(ws)) == ws,
        total_len(clauses(ws)) + clauses(ws).len() == total_len(ws) + ws.len(),
        forall|k: int| 0 <= k < clauses(ws).len() ==> (#[trigger] clauses(ws)[k]).len() > 0,
    decreases ws.len(),
{
    if ws.len() > 0 {
        let front = ws.drop_last();
        let w = ws.last();
        assert(is_word(ws[ws.len() - 1]));
        assert forall|i: int| 0 <= i < front.len() implies is_word(#[trigger] front[i]) by {
            assert(front[i] == ws[i]);
        }
        lemma_clauses(front);
        lemma_words_one(w);
        let r = clauses(front);
        let c = clauses(ws);
        if r.len() == 0 || is_clause_word(lower(bare(w))) {
            assert(c.drop_last() =~= r);
            assert(all_words(c) == all_words(r) + seq![w]);
        } else {
            lemma_words_concat(r.last(), ' ', w);
            assert(c.drop_last() =~= r.drop_last());
            assert(all_words(r) == all_words(r.drop_last()) + words(r.last()));
            assert(all_words(c) =~= (all_words(r.drop_last()) + words(r.last())) + seq![w]);
        }
        assert(front + seq![w] =~= ws);
    } else {
        assert(all_words(clauses(ws)) =~= ws);
    }
}

/// Splitting before keywords keeps the words, and where there is more than one
/// clause each is shorter than the text.
proof fn lemma_split_before(t: Seq<char>)
    ensures
        all_words(clauses(words(t))) == words(t),
        total_len(clauses(words(t))) + clauses(words(t)).len() <= t.len() + 1,
        clauses(words(t)).len() > 1 ==> forall|k: int|
            0 <= k < clauses(words(t)).len() ==> (#[trigger] clauses(words(t))[k]).len() < t.len(),
{
    lemma_words_are_words(t);
    lemma_clauses(words(t));
    lemma_words_len(t);
    let c = clauses(words(t));
    if c.len() > 1 {
        assert forall|k: int| 0 <= k < c.len() implies (#[trigger] c[k]).len() < t.len() by {
            lemma_part_len(c, k);
        }
    }
}

// ---------------------------------------------------------------------------
// Pieces of a cue
// ---------------------------------------------------------------------------
pub open spec fn sentence_delims() -> Seq<char> {
    seq!['.', '?', '!']
}

pub open spec fn clause_delims() -> Seq<char> {
    seq![',', ';', ':', '\u{2014}']
}

/// The fragments a long text falls into: after sentences, else after clause
/// punctuation, else before keywords. One fragment where none of these splits.
pub open spec fn fragments(t: Seq<char>) -> Seq<Seq<char>> {
    if split_after_of(t, sentence_delims()).len() > 1 {
        split_after_of(t, sentence_delims())
    } else if split_after_of(t, clause_delims()).len() > 1 {
        split_after_of(t, clause_delims())
    } else {
        clauses(words(t))
    }
}

/// The readable pieces of a text. A text that fits a line is one piece; a
/// longer one is split into fragments, which are split in turn and joined
/// again where they fit; one that has no fragments is wrapped.
pub open spec fn pieces(text: Seq<char>) -> Seq<Seq<char>>
    decreases text.len(), 1int, 0nat,
{
    let t = trimmed(text);
    if t.len() <= MAXC {
        seq![t]
    } else if fragments(t).len() > 1 {
        proof {
            lemma_trimmed_len(text);
        }
        rejoined(pieces_of_all(fragments(t), t.len()))
    } else {
        wrapped(t, MAXC as int)
    }
}

/// The pieces of each fragment in turn; every fragment is shorter than
/// `bound`.
pub open spec fn pieces_of_all(parts: Seq<Seq<char>>, bound: nat) -> Seq<Seq<char>>
    decreases bound, 0int, parts.len(),
{
    if parts.len() == 0 {
        Seq::empty()
    } else if parts.last().len() < bound {
        pieces_of_all(parts.drop_last(), bound) + pieces(parts.last())
    } else {
        pieces_of_all(parts.drop_last(), bound)
    }
}

proof fn lemma_fragments(t: Seq<char>)
    ensures
        all_words(fragments(t)) == words(t),
        total_len(fragments(t)) + fragments(t).len() <= t.len() + 1,
        fragments(t).len() > 1 ==> forall|k: int|
            0 <= k < fragments(t).len() ==> (#[trigger] fragments(t)[k]).len() < t.len(),
{
    lemma_split_after(t, sentence_delims());
    lemma_split_after(t, clause_delims());
    lemma_split_before(t);
}

/// Splitting a cue keeps every word, in order, and gives no piece longer than
/// a line unless it is one word.
pub proof fn law_pieces_keep_words(text: Seq<char>)
    ensures
        all_words(pieces(text)) == words(text),
        forall|k: int|
            0 <= k < pieces(text).len() ==> fits_or_single(
                #[trigger] pieces(text)[k],
                MAXC as int,
            ),
    decreases text.len(), 1int, 0nat,
{
    let t = trimmed(text);
    lemma_words_trimmed(text);
    lemma_trimmed_len(text);
    lemma_fragments(t);
    if t.len() <= MAXC {
        assert(pieces(text).drop_last() =~= Seq::<Seq<char>>::empty());
        assert(all_words(Seq::<Seq<char>>::empty()) =~= Seq::<Seq<char>>::empty());
        assert(Seq::<Seq<char>>::empty() + words(t) =~= words(t));
    } else if fragments(t).len() > 1 {
        lemma_pieces_of_all(fragments(t), t.len());
        lemma_rejoined(pieces_of_all(fragments(t), t.len()));
    } else {
        law_wrapping_keeps_words(t, MAXC as int);
    }
}

proof fn lemma_pieces_of_all(parts: Seq<Seq<char>>, bound: nat)
    requires
        forall|k: int| 0 <= k < parts.len() ==> (#[trigger] parts[k]).len() < bound,
    ensures
        all_words(pieces_of_all(parts, bound)) == all_words(parts),
        forall|k: int|
            0 <= k < pieces_of_all(parts, bound).len() ==> fits_or_single(
                #[trigger] pieces_of_all(parts, bound)[k],
                MAXC as int,
            ),
    decreases bound, 0int, parts.len(),
{
    if parts.len() > 0 {
        let front = parts.drop_last();
        assert forall|k: int| 0 <= k < front.len() implies (#[trigger] front[k]).len() < bound by {
            assert(front[k] == parts[k]);
        }
        assert(parts[parts.len() - 1].len() < bound);
        lemma_pieces_of_all(front, bound);
        law_pieces_keep_words(parts.last());
        let a = pieces_of_all(front, bound);
        let b = pieces(parts.last());
        lemma_all_words_append(a, b);
        let all = pieces_of_all(parts, bound);
        assert(all == a + b);
        assert forall|k: int| 0 <= k < all.len() implies fits_or_single(
            #[trigger] all[k],
            MAXC as int,
        ) by {
            if k < a.len() {
                assert(all[k] == a[k]);
            } else {
                assert(all[k] == b[k - a.len()]);
            }
        }
    }
}

proof fn lemma_greedy_len(ws: Seq<Seq<char>>, width: int)
    ensures
        total_len(greedy(ws, width)) + greedy(ws, width).len() == total_len(ws) + ws.len(),
    decreases ws.len(),
{
    if ws.len() > 0 {
        lemma_greedy_len(ws.drop_last(), width);
        let r = greedy(ws.drop_last(), width);
        let g = greedy(ws, width);
        if r.len() > 0 && r.last().len() + 1 + ws.last().len() <= width {
            assert(g.drop_last() =~= r.drop_last());
        } else {
            assert(g.drop_last() =~= r);
        }
    }
}

proof fn lemma_rejoined_len(parts: Seq<Seq<char>>)
    ensures
        total_len(rejoined(parts)) + rejoined(parts).len() <= total_len(parts) + parts.len(),
    decreases parts.len(),
{
    if parts.len() > 0 {
        lemma_rejoined_len(parts.drop_last());
        lemma_trimmed_len(parts.last());
        let r = rejoined(parts.drop_last());
        let j = rejoined(parts);
        let p = trimmed(parts.last());
        if p.len() == 0 {
        } else if r.len() > 0 && r.last().len() + 1 + p.len() <= MAXC {
            assert(j.drop_last() =~= r.drop_last());
        } else {
            assert(j.drop_last() =~= r);
        }
    }
}

/// The pieces of a text, with one character between neighbours, are no longer
/// than the text.
pub proof fn lemma_pieces_len(text: Seq<char>)
    ensures
        total_len(pieces(text)) + pieces(text).len() <= text.len() + 1,
    decreases text.len(), 1int, 0nat,
{
    let t = trimmed(text);
    lemma_trimmed_len(text);
    lemma_fragments(t);
    if t.len() <= MAXC {
        assert(pieces(text).drop_last() =~= Seq::<Seq<char>>::empty());
        assert(total_len(Seq::<Seq<char>>::empty()) == 0);
    } else if fragments(t).len() > 1 {
        lemma_pieces_of_all_len(fragments(t), t.len());
        lemma_rejoined_len(pieces_of_all(fragments(t), t.len()));
    } else {
        lemma_greedy_len(words(t), MAXC as int);
        lemma_words_len(t);
    }
}

proof fn lemma_pieces_of_all_len(parts: Seq<Seq<char>>, bound: nat)
    ensures
        total_len(pieces_of_all(parts, bound)) + pieces_of_all(parts, bound).len() <= total_len(
            parts,
        ) + parts.len(),
    decreases bound, 0int, parts.len(),
{
    if parts.len() > 0 {
        lemma_pieces_of_all_len(parts.drop_last(), bound);
        if parts.last().len() < bound {
            lemma_pieces_len(parts.last());
            lemma_total_len_append(
                pieces_of_all(parts.drop_last(), bound),
                pieces(parts.last()),
            );
        }
    }
}

fn find_fragments(t: &str) -> (parts: Vec<String>)
    ensures
        views(parts@) == fragments(t@),
{
    let mut sentence: Vec<char> = Vec::new();
    sentence.push('.');
    sentence.push('?');
    sentence.push('!');
    assert(sentence@ =~= sentence_delims());
    let parts = split_after(t, &sentence);
    if parts.len() > 1 {
        return parts;
    }
    let mut clause: Vec<char> = Vec::new();
    clause.push(',');
    clause.push(';');
    clause.push(':');
    clause.push('\u{2014}');
    assert(clause@ =~= clause_delims());
    let parts = split_after(t, &clause);
    if parts.len() > 1 {
        return parts;
    }
    split_before_keywords(t)
}

/// Breaks a cue's text into readable chunks: sentence boundaries first, then
/// clause punctuation, then clause keywords, then a hard word wrap.
pub fn split_pieces(text: &str) -> (out: Vec<String>)
    ensures
        views(out@) == pieces(text@),
    decreases text@.len(),
{
    let t = trim(text);
    proof {
        lemma_trimmed_len(text@);
        lemma_fragments(t@);
    }
    if clen(t.as_str()) <= MAXC {
        let mut out: Vec<String> = Vec::new();
        let ghost tv = t@;
        out.push(t);
        assert(views(out@) =~= seq![tv]);
        return out;
    }
    let parts = find_fragments(t.as_str());
    if parts.len() > 1 {
        let ghost pv = views(parts@);
        let mut all: Vec<String> = Vec::new();
        let mut k: usize = 0;
        assert(views(all@) =~= Seq::<Seq<char>>::empty());
        while k < parts.len()
            invariant
                k <= parts@.len(),
                pv == views(parts@),
                pv == fragments(t@),
                t@.len() <= text@.len(),
                forall|i: int| 0 <= i < pv.len() ==> (#[trigger] pv[i]).len() < t@.len(),
                views(all@) == pieces_of_all(pv.take(k as int), t@.len()),
            decreases parts@.len() - k,
        {
            assert(pv.take(k + 1).drop_last() =~= pv.take(k as int));
            assert(pv[k as int] == parts@[k as int]@);
            let ghost before = views(all@);
            let mut more = split_pieces(parts[k].as_str());
            let ghost mv = views(more@);
            all.append(&mut more);
            assert(views(all@) =~= before + mv);
            k += 1;
        }
        assert(pv.take(k as int) =~= pv);
        return merge(all);
    }
    wrap(t.as_str(), MAXC)
}

// ---------------------------------------------------------------------------
// Laws
// ---------------------------------------------------------------------------
proof fn lemma_greedy_fills(ws: Seq<Seq<char>>, width: int)
    requires
        forall|i: int| 0 <= i < ws.len() ==> is_word(#[trigger] ws[i]),
    ensures
        forall|k: int|
            0 <= k < greedy(ws, width).len() ==> words(#[trigger] greedy(ws, width)[k]).len() > 0,
        forall|k: int, l: int|
            0 <= k && l == k + 1 && l < greedy(ws, width).len() ==> (#[trigger] greedy(
                ws,
                width,
            )[k]).len() + 1 + words(#[trigger] greedy(ws, width)[l])[0].len() > width,
    decreases ws.len(),
{
    if ws.len() > 0 {
        let front = ws.drop_last();
        let w = ws.last();
        assert(is_word(ws[ws.len() - 1]));
        assert forall|i: int| 0 <= i < front.len() implies is_word(#[trigger] front[i]) by {
            assert(front[i] == ws[i]);
        }
        lemma_greedy_fills(front, width);
        lemma_words_one(w);
        let r = greedy(front, width);
        let g = greedy(ws, width);
        let joins = r.len() > 0 && r.last().len() + 1 + w.len() <= width;
        if joins {
            lemma_words_concat(r.last(), ' ', w);
            assert(r.last() + seq![' '] + w =~= r.last().push(' ') + w);
            assert(words(r[r.len() - 1]).len() > 0);
            assert(words(g.last()) == words(r.last()) + seq![w]);
            assert(words(g.last())[0] == words(r.last())[0]);
        }
        assert forall|k: int| 0 <= k < g.len() implies words(#[trigger] g[k]).len() > 0 by {
            if k < g.len() - 1 {
                assert(g[k] == r[k]);
            }
        }
        assert forall|k: int, l: int| 0 <= k && l == k + 1 && l < g.len() implies (
        #[trigger] g[k]).len() + 1 + words(#[trigger] g[l])[0].len() > width by {
            assert(g[k] == r[k]);
            if l < r.len() {
                assert(r[k].len() + 1 + words(r[l])[0].len() > width);
                if l < g.len() - 1 || !joins {
                    assert(g[l] == r[l]);
                }
            }
        }
    }
}

/// No line is broken before it is full: the first word of the next line would
/// not have fitted on it.
pub proof fn law_lines_are_filled(t: Seq<char>, width: int)
    ensures
        forall|k: int, l: int|
            0 <= k && l == k + 1 && l < wrapped(t, width).len() ==> words(wrapped(t, width)[l]).len()
                > 0 && (#[trigger] wrapped(t, width)[k]).len() + 1 + words(
                #[trigger] wrapped(t, width)[l],
            )[0].len() > width,
{
    lemma_words_are_words(t);
    lemma_greedy_fills(words(t), width);
}

/// A text of 84 characters or fewer is one piece, as it stands; of a longer one
/// no piece has more than 84 unless it is a single word.
pub proof fn law_pieces_have_84_characters_at_most(text: Seq<char>)
    ensures
        trimmed(text).len() <= 84 ==> pieces(text) == seq![trimmed(text)],
        forall|k: int|
            0 <= k < pieces(text).len() ==> (#[trigger] pieces(text)[k]).len() <= 84 || words(
                pieces(text)[k],
            ).len() == 1,
{
    law_pieces_keep_words(text);
    assert forall|k: int| 0 <= k < pieces(text).len() implies (#[trigger] pieces(text)[k]).len()
        <= 84 || words(pieces(text)[k]).len() == 1 by {
        assert(fits_or_single(pieces(text)[k], MAXC as int));
    }
}

/// No delimiter is white space.
pub open spec fn no_space_among(delims: Seq<char>) -> bool {
    forall|k: int| 0 <= k < delims.len() ==> !is_space(#[trigger] delims[k])
}

proof fn lemma_parts_end(t: Seq<char>, delims: Seq<char>, n: int)
    requires
        0 <= n <= t.len(),
        no_space_among(delims),
    ensures
        ({
            let (parts, from) = split_scan(t, delims, n);
            &&& 0 <= from <= n
            &&& forall|k: int|
                0 <= k < parts.len() ==> (#[trigger] parts[k]).len() > 0 && delims.contains(
                    parts[k].last(),
                )
        }),
    decreases n,
{
    if n > 0 {
        lemma_parts_end(t, delims, n - 1);
        let (parts, from) = split_scan(t, delims, n - 1);
        if is_boundary(t, delims, n - 1) {
            let p = t.subrange(from, n);
            let d = choose|d: int| 0 <= d < delims.len() && delims[d] == t[n - 1];
            assert(!is_space(delims[d]));
            assert(p.last() == t[n - 1]);
            lemma_last_stays(p);
        }
    }
}

proof fn lemma_last_stays(p: Seq<char>)
    requires
        p.len() > 0,
        !is_space(p.last()),
    ensures
        trimmed(p).len() > 0,
        trimmed(p).last() == p.last(),
    decreases p.len(),
{
    if is_space(p[0]) {
        lemma_last_stays(p.drop_first());
    }
}

/// Every fragment but the last ends in a delimiter: a text is split after them
/// and nowhere else.
pub proof fn law_fragments_end_in_punctuation(t: Seq<char>, delims: Seq<char>)
    requires
        no_space_among(delims),
    ensures
        forall|k: int|
            0 <= k < split_after_of(t, delims).len() - 1 ==> (#[trigger] split_after_of(
                t,
                delims,
            )[k]).len() > 0 && delims.contains(split_after_of(t, delims)[k].last()),
{
    lemma_parts_end(t, delims, t.len() as int);
    let (parts, from) = split_scan(t, delims, t.len() as int);
    let all = split_after_of(t, delims);
    assert forall|k: int| 0 <= k < all.len() - 1 implies (#[trigger] all[k]).len() > 0
        && delims.contains(all[k].last()) by {
        assert(all[k] == parts[k]);
    }
}

/// Sentences come first: a text is split after full stops, question marks and
/// exclamation marks where that splits it, else after commas, semicolons,
/// colons and dashes, and only else before the words that open a clause.
pub proof fn law_sentences_are_split_before_clauses(t: Seq<char>)
    ensures
        ({
            let sentences = split_after_of(t, seq!['.', '?', '!']);
            let parts = split_after_of(t, seq![',', ';', ':', '\u{2014}']);
            &&& sentences.len() > 1 ==> fragments(t) == sentences
            &&& sentences.len() <= 1 && parts.len() > 1 ==> fragments(t) == parts
            &&& sentences.len() <= 1 && parts.len() <= 1 ==> fragments(t) == clauses(words(t))
        }),
{
}

proof fn lemma_clauses_open(ws: Seq<Seq<char>>)
    requires
        forall|i: int| 0 <= i < ws.len() ==> is_word(#[trigger] ws[i]),
    ensures
        forall|k: int|
            0 <= k < clauses(ws).len() ==> words(#[trigger] clauses(ws)[k]).len() > 0,
        forall|k: int|
            1 <= k < clauses(ws).len() ==> is_clause_word(
                lower(bare(words(#[trigger] clauses(ws)[k])[0])),
            ),
        forall|k: int, i: int|
            0 <= k < clauses(ws).len() && 1 <= i < words(clauses(ws)[k]).len() ==> !is_clause_word(
                lower(bare(#[trigger] words(clauses(ws)[k])[i])),
            ),
    decreases ws.len(),
{
    if ws.len() > 0 {
        let front = ws.drop_last();
        let w = ws.last();
        assert(is_word(ws[ws.len() - 1]));
        assert forall|i: int| 0 <= i < front.len() implies is_word(#[trigger] front[i]) by {
            assert(front[i] == ws[i]);
        }
        lemma_clauses_open(front);
        lemma_words_one(w);
        let r = clauses(front);
        let g = clauses(ws);
        let opens = r.len() == 0 || is_clause_word(lower(bare(w)));
        let n = g.len() - 1;
        if !opens {
            lemma_words_concat(r.last(), ' ', w);
            assert(r.last() + seq![' '] + w =~= r.last().push(' ') + w);
            assert(words(r[r.len() - 1]).len() > 0);
            assert(words(g[n]) == words(r[n]) + seq![w]);
        } else {
            assert(g[n] == w);
            assert(words(g[n]) == seq![w]);
        }
        assert forall|k: int| 0 <= k < g.len() implies words(#[trigger] g[k]).len() > 0 by {
            if k < n {
                assert(g[k] == r[k]);
            }
        }
        assert forall|k: int| 1 <= k < g.len() implies is_clause_word(
            lower(bare(words(#[trigger] g[k])[0])),
        ) by {
            if k < n {
                assert(g[k] == r[k]);
            } else if !opens {
                assert(words(g[k])[0] == words(r[k])[0]);
            }
        }
        assert forall|k: int, i: int|
            0 <= k < g.len() && 1 <= i < words(g[k]).len() implies !is_clause_word(
            lower(bare(#[trigger] words(g[k])[i])),
        ) by {
            if k < n {
                assert(g[k] == r[k]);
                assert(words(r[k])[i] == words(g[k])[i]);
            } else if !opens && i < words(r[k]).len() {
                assert(words(r[k])[i] == words(g[k])[i]);
            }
        }
    }
}

/// A clause begins at a word that opens one and goes on to the next: every
/// clause but the first begins with such a word, and none holds one further in.
pub proof fn law_clauses_begin_with_their_word(t: Seq<char>)
    ensures
        forall|k: int|
            1 <= k < clauses(words(t)).len() ==> words(clauses(words(t))[k]).len() > 0
                && is_clause_word(lower(bare(words(#[trigger] clauses(words(t))[k])[0]))),
        forall|k: int, i: int|
            0 <= k < clauses(words(t)).len() && 1 <= i < words(clauses(words(t))[k]).len()
                ==> !is_clause_word(lower(bare(#[trigger] words(clauses(words(t))[k])[i]))),
{
    lemma_words_are_words(t);
    lemma_clauses_open(words(t));
}

/// The words that open a clause are these eight.
pub proof fn law_eight_words_open_a_clause(w: Seq<char>)
    ensures
        is_clause_word(w) <==> w == "and"@ || w == "but"@ || w == "so"@ || w == "because"@ || w
            == "which"@ || w == "that"@ || w == "then"@ || w == "or"@,
{
}

} // verus!
