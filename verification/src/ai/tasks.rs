//! The model's tasks. Each is a single decision inside a closed action space,
//! with a fallback for when the model is absent or its answer is not usable.
use vstd::prelude::*;

use super::provider::{Capabilities, Tier};
use crate::text::{chars_of, split_whitespace, views, words};

verus! {

/// The question whether a caption line can be understood.
pub fn intelligible_prompt(line: &str) -> (r: String)
    ensures
        r@ == "This is one line of an automatic transcript of a spoken software demo. The speaker is not a native English speaker.\n\nLINE: "@
            + line@
            + "\n\nIs this line intelligible as written — would a viewer understand it? ok=true if yes, ok=false if it reads as garbled or nonsensical.\nReply JSON."@,
{
    let mut r = String::new();
    r.append("This is one line of an automatic transcript of a spoken software demo. The speaker is not a native English speaker.\n\nLINE: ");
    r.append(line);
    r.append("\n\nIs this line intelligible as written — would a viewer understand it? ok=true if yes, ok=false if it reads as garbled or nonsensical.\nReply JSON.");
    assert(r@ =~= "This is one line of an automatic transcript of a spoken software demo. The speaker is not a native English speaker.\n\nLINE: "@
        + line@
        + "\n\nIs this line intelligible as written — would a viewer understand it? ok=true if yes, ok=false if it reads as garbled or nonsensical.\nReply JSON."@);
    r
}

/// A line counts as intelligible unless a usable model says it is not.
pub open spec fn passes(tier: Tier, answer: Option<bool>) -> bool {
    tier == Tier::Fallback || answer is None || answer.unwrap()
}

/// Whether a caption line can be understood. `answer` is what the model said,
/// `None` where it was not asked, not reachable or not readable. It never edits
/// anything: a missed line stays as it was, and a falsely flagged line is read
/// by a human.
pub fn intelligible(caps: &Capabilities, answer: Option<bool>) -> (b: bool)
    ensures
        b == passes(caps.tier, answer),
{
    if !caps.tier.allows_selection() {
        return true;
    }
    match answer {
        Some(ok) => ok,
        None => true,
    }
}

// ---------------------------------------------------------------------------
// Triage
// ---------------------------------------------------------------------------
/// How many bytes a character takes in UTF-8.
pub open spec fn byte_len(c: char) -> nat {
    let n = c as u32;
    if n < 0x80 {
        1
    } else if n < 0x800 {
        2
    } else if n < 0x10000 {
        3
    } else {
        4
    }
}

pub open spec fn total_bytes(s: Seq<char>) -> nat
    decreases s.len(),
{
    if s.len() == 0 {
        0
    } else {
        total_bytes(s.drop_last()) + byte_len(s.last())
    }
}

/// A word of at most two bytes.
pub open spec fn is_stubby(w: Seq<char>) -> bool {
    total_bytes(w) <= 2
}

pub open spec fn count_stubby(ws: Seq<Seq<char>>) -> nat
    decreases ws.len(),
{
    if ws.len() == 0 {
        0
    } else {
        count_stubby(ws.drop_last()) + (if is_stubby(ws.last()) {
            1nat
        } else {
            0
        })
    }
}

/// A line of three or more words, a third of them or more very short, is where
/// the transcriber usually fell apart.
pub open spec fn looks_risky(line: Seq<char>) -> bool {
    words(line).len() >= 3 && count_stubby(words(line)) * 3 >= words(line).len()
}

fn stubby(w: &str) -> (b: bool)
    ensures
        b == is_stubby(w@),
{
    let v = chars_of(w);
    let mut n: u8 = 0;
    let mut i: usize = 0;
    while i < v.len()
        invariant
            i <= v@.len(),
            v@ == w@,
            n == total_bytes(w@.take(i as int)),
            n <= 2,
        decreases v@.len() - i,
    {
        assert(w@.take(i + 1).drop_last() =~= w@.take(i as int));
        let c: u32 = v[i] as u32;
        let k: u8 = if c < 0x80 {
            1
        } else if c < 0x800 {
            2
        } else if c < 0x10000 {
            3
        } else {
            4
        };
        n = n + k;
        i += 1;
        if n > 2 {
            proof {
                lemma_bytes_grow(w@, i as int);
            }
            return false;
        }
    }
    assert(w@.take(i as int) =~= w@);
    true
}

proof fn lemma_bytes_grow(s: Seq<char>, k: int)
    requires
        0 <= k <= s.len(),
    ensures
        total_bytes(s.take(k)) <= total_bytes(s),
    decreases s.len(),
{
    if k < s.len() {
        lemma_bytes_grow(s.drop_last(), k);
        assert(s.drop_last().take(k) =~= s.take(k));
    } else {
        assert(s.take(k) =~= s);
    }
}

/// Deterministic triage: only lines that look risky are worth a call.
pub fn worth_checking(line: &str) -> (b: bool)
    ensures
        b == looks_risky(line@),
{
    let ws = split_whitespace(line);
    let ghost wv = words(line@);
    let n: usize = ws.len();
    if n < 3 {
        return false;
    }
    let mut count: usize = 0;
    let mut i: usize = 0;
    while i < n
        invariant
            i <= n == ws@.len(),
            views(ws@) == wv,
            count <= i,
            count == count_stubby(wv.take(i as int)),
        decreases n - i,
    {
        assert(wv.take(i + 1).drop_last() =~= wv.take(i as int));
        assert(wv[i as int] == ws@[i as int]@);
        if stubby(ws[i].as_str()) {
            count += 1;
        }
        i += 1;
    }
    assert(wv.take(i as int) =~= wv);
    count as u128 * 3 >= n as u128
}

/// Whether the model is asked about a line: it has to be usable, and the line
/// has to look risky.
pub open spec fn is_asked(tier: Tier, line: Seq<char>) -> bool {
    tier != Tier::Fallback && looks_risky(line)
}

/// The lines that the model is asked about, by index and in order.
pub open spec fn asked_lines(tier: Tier, lines: Seq<Seq<char>>) -> Seq<usize>
    decreases lines.len(),
{
    if lines.len() == 0 {
        Seq::empty()
    } else {
        let r = asked_lines(tier, lines.drop_last());
        if is_asked(tier, lines.last()) {
            r.push((lines.len() - 1) as usize)
        } else {
            r
        }
    }
}

/// Which lines to ask the model about.
pub fn lines_to_ask(caps: &Capabilities, lines: &Vec<String>) -> (out: Vec<usize>)
    ensures
        out@ == asked_lines(caps.tier, views(lines@)),
{
    let ghost lv = views(lines@);
    let mut out: Vec<usize> = Vec::new();
    if !caps.tier.allows_selection() {
        proof {
            law_no_model_is_asked_nothing(lv);
        }
        return out;
    }
    let mut i: usize = 0;
    while i < lines.len()
        invariant
            i <= lines@.len(),
            caps.tier != Tier::Fallback,
            lv == views(lines@),
            out@ == asked_lines(caps.tier, lv.take(i as int)),
        decreases lines@.len() - i,
    {
        assert(lv.take(i + 1).drop_last() =~= lv.take(i as int));
        assert(lv[i as int] == lines@[i as int]@);
        if worth_checking(lines[i].as_str()) {
            out.push(i);
        }
        i += 1;
    }
    assert(lv.take(i as int) =~= lv);
    out
}

/// With no usable model there is nothing to ask.
pub proof fn law_no_model_is_asked_nothing(lines: Seq<Seq<char>>)
    ensures
        asked_lines(Tier::Fallback, lines) == Seq::<usize>::empty(),
    decreases lines.len(),
{
    if lines.len() > 0 {
        law_no_model_is_asked_nothing(lines.drop_last());
    }
}

/// Every line to ask about is asked about once, in order, and no other is.
pub proof fn law_each_line_is_asked_once(tier: Tier, lines: Seq<Seq<char>>)
    requires
        lines.len() <= usize::MAX,
    ensures
        forall|i: int, j: int|
            0 <= i < j < asked_lines(tier, lines).len() ==> #[trigger] asked_lines(tier, lines)[i]
                < #[trigger] asked_lines(tier, lines)[j],
        forall|k: usize|
            #[trigger] asked_lines(tier, lines).contains(k) <==> k < lines.len() && is_asked(
                tier,
                lines[k as int],
            ),
    decreases lines.len(),
{
    let s = asked_lines(tier, lines);
    if lines.len() > 0 {
        let front = lines.drop_last();
        let n = front.len() as int;
        law_each_line_is_asked_once(tier, front);
        let r = asked_lines(tier, front);
        assert forall|k: usize| #[trigger] s.contains(k) <==> k < lines.len() && is_asked(
            tier,
            lines[k as int],
        ) by {
            if s.contains(k) {
                let i = choose|i: int| 0 <= i < s.len() && s[i] == k;
                if i < r.len() {
                    assert(r[i] == k);
                    assert(r.contains(k));
                }
            }
            if k < n && is_asked(tier, lines[k as int]) {
                assert(front[k as int] == lines[k as int]);
                assert(r.contains(k));
                let i = choose|i: int| 0 <= i < r.len() && r[i] == k;
                assert(s[i] == k);
            }
            if k == n && is_asked(tier, lines[k as int]) {
                assert(s[s.len() - 1] == k);
            }
        }
        assert forall|i: int, j: int| 0 <= i < j < s.len() implies #[trigger] s[i]
            < #[trigger] s[j] by {
            assert(i < r.len());
            assert(r[i] == s[i]);
            assert(r.contains(r[i]));
            if j < r.len() {
                assert(r[j] == s[j]);
            }
        }
    }
}

/// The lines, of those that look risky, that the model called unintelligible.
pub open spec fn flagged(tier: Tier, lines: Seq<Seq<char>>, answers: Seq<Option<bool>>) -> Seq<
    Seq<char>,
>
    decreases lines.len(),
{
    if lines.len() == 0 {
        Seq::empty()
    } else {
        let r = flagged(tier, lines.drop_last(), answers);
        let k = lines.len() - 1;
        if looks_risky(lines[k]) && !passes(tier, answers[k]) {
            r.push(lines[k])
        } else {
            r
        }
    }
}

/// The caption lines worth a human look. `answers` holds what the model said of
/// each line, `None` where it was not asked.
pub fn proofread_list(caps: &Capabilities, lines: &Vec<String>, answers: &Vec<Option<bool>>) -> (out:
    Vec<String>)
    requires
        answers@.len() == lines@.len(),
    ensures
        views(out@) == flagged(caps.tier, views(lines@), answers@),
{
    let ghost lv = views(lines@);
    let mut out: Vec<String> = Vec::new();
    let mut i: usize = 0;
    assert(views(out@) =~= Seq::<Seq<char>>::empty());
    while i < lines.len()
        invariant
            i <= lines@.len(),
            lv == views(lines@),
            answers@.len() == lines@.len(),
            views(out@) == flagged(caps.tier, lv.take(i as int), answers@),
        decreases lines@.len() - i,
    {
        assert(lv.take(i + 1).drop_last() =~= lv.take(i as int));
        assert(lv[i as int] == lines@[i as int]@);
        let ghost before = views(out@);
        if worth_checking(lines[i].as_str()) && !intelligible(caps, answers[i]) {
            out.push(lines[i].clone());
            assert(views(out@) =~= before.push(lv[i as int]));
        }
        i += 1;
    }
    assert(lv.take(i as int) =~= lv);
    out
}

/// With no usable model nothing is flagged.
pub proof fn law_no_model_flags_nothing(lines: Seq<Seq<char>>, answers: Seq<Option<bool>>)
    ensures
        flagged(Tier::Fallback, lines, answers) == Seq::<Seq<char>>::empty(),
    decreases lines.len(),
{
    if lines.len() > 0 {
        law_no_model_flags_nothing(lines.drop_last(), answers);
    }
}

/// Silence flags nothing either.
pub proof fn law_silence_flags_nothing(
    tier: Tier,
    lines: Seq<Seq<char>>,
    answers: Seq<Option<bool>>,
)
    requires
        answers.len() >= lines.len(),
        forall|k: int| 0 <= k < answers.len() ==> (#[trigger] answers[k]) is None,
    ensures
        flagged(tier, lines, answers) == Seq::<Seq<char>>::empty(),
    decreases lines.len(),
{
    if lines.len() > 0 {
        law_silence_flags_nothing(tier, lines.drop_last(), answers);
        assert(answers[lines.len() - 1] is None);
    }
}

/// Of the lines listed in `asked`, those that the model called unintelligible.
pub open spec fn called_unintelligible(
    lines: Seq<Seq<char>>,
    asked: Seq<usize>,
    answers: Seq<Option<bool>>,
) -> Seq<Seq<char>>
    decreases asked.len(),
{
    if asked.len() == 0 {
        Seq::empty()
    } else {
        let r = called_unintelligible(lines, asked.drop_last(), answers);
        let k = asked.last() as int;
        if answers[k] == Some(false) {
            r.push(lines[k])
        } else {
            r
        }
    }
}

proof fn lemma_called_front(
    lines: Seq<Seq<char>>,
    asked: Seq<usize>,
    answers: Seq<Option<bool>>,
)
    requires
        lines.len() > 0,
        forall|i: int| 0 <= i < asked.len() ==> #[trigger] asked[i] < lines.len() - 1,
    ensures
        called_unintelligible(lines, asked, answers) == called_unintelligible(
            lines.drop_last(),
            asked,
            answers,
        ),
    decreases asked.len(),
{
    if asked.len() > 0 {
        assert forall|i: int| 0 <= i < asked.drop_last().len() implies #[trigger] asked.drop_last()[i]
            < lines.len() - 1 by {
            assert(asked[i] < lines.len() - 1);
        }
        lemma_called_front(lines, asked.drop_last(), answers);
        assert(asked[asked.len() - 1] < lines.len() - 1);
    }
}

/// Only what the model was asked can be flagged: the list holds, in order, the
/// lines it was asked about and called unintelligible. An answer that did not
/// come, or could not be read, flags nothing, and answers to other lines do not
/// matter.
pub proof fn law_only_asked_lines_are_flagged(
    tier: Tier,
    lines: Seq<Seq<char>>,
    answers: Seq<Option<bool>>,
)
    requires
        lines.len() <= usize::MAX,
    ensures
        flagged(tier, lines, answers) == called_unintelligible(
            lines,
            asked_lines(tier, lines),
            answers,
        ),
    decreases lines.len(),
{
    if lines.len() > 0 {
        let front = lines.drop_last();
        law_only_asked_lines_are_flagged(tier, front, answers);
        law_each_line_is_asked_once(tier, front);
        let r = asked_lines(tier, front);
        assert forall|i: int| 0 <= i < r.len() implies #[trigger] r[i] < lines.len() - 1 by {
            assert(r.contains(r[i]));
        }
        lemma_called_front(lines, r, answers);
        let s = asked_lines(tier, lines);
        if is_asked(tier, lines.last()) {
            assert(s.drop_last() =~= r);
        }
    }
}

// ---------------------------------------------------------------------------
// Laws
// ---------------------------------------------------------------------------
/// The words of two bytes or fewer, by place.
pub open spec fn stubby_places(ws: Seq<Seq<char>>) -> Set<int> {
    vstd::set_lib::set_int_range(0, ws.len() as int).filter(|k: int| total_bytes(ws[k]) <= 2)
}

proof fn lemma_count_stubby(ws: Seq<Seq<char>>)
    ensures
        stubby_places(ws).finite(),
        count_stubby(ws) == stubby_places(ws).len(),
    decreases ws.len(),
{
    let n = ws.len() as int;
    vstd::set_lib::lemma_int_range(0, n);
    vstd::set_lib::set_int_range(0, n).lemma_len_filter(|k: int| total_bytes(ws[k]) <= 2);
    let all = stubby_places(ws);
    if n > 0 {
        let front = ws.drop_last();
        lemma_count_stubby(front);
        let rest = stubby_places(front);
        assert(forall|k: int| 0 <= k < n - 1 ==> #[trigger] front[k] == ws[k]);
        if is_stubby(ws.last()) {
            assert(all =~= rest.insert(n - 1));
        } else {
            assert(all =~= rest);
        }
    } else {
        assert(all =~= Set::empty());
    }
}

/// A line is worth a look exactly when it has three words or more and a third
/// of them or more take no more than two bytes.
pub proof fn law_a_third_of_stubs_is_worth_a_look(line: Seq<char>)
    ensures
        looks_risky(line) <==> words(line).len() >= 3 && 3 * stubby_places(words(line)).len()
            >= words(line).len(),
{
    lemma_count_stubby(words(line));
}

/// A line is called unintelligible only by a model that is trusted to select
/// and that says so.
pub proof fn law_only_a_trusted_no_flags_a_line(tier: Tier, answer: Option<bool>)
    ensures
        !passes(tier, answer) <==> tier !is Fallback && answer == Some(false),
{
}

} // verus!
