//! The capability probe, run once per model.
//!
//! Everything here is measured. The questions are asked one at a time: the
//! caller takes the next question, gets an answer however it can, and hands it
//! back.
use vstd::prelude::*;

use super::provider::{Capabilities, Tier, TEMPERATURE};
use crate::num::{decimal, push_decimal, show_count};
use crate::text::{contains, lower, occurs, split_whitespace, words};

verus! {

/// Echo questions: does the model keep to a schema?
pub const ECHO_ITEMS: usize = 5;

/// Selection questions with known answers.
pub const SELECTION_ITEMS: usize = 6;

/// Generation questions: repairing a mangled caption line.
pub const GENERATION_ITEMS: usize = 4;

/// All the questions: those above and one that measures throughput.
pub const QUESTIONS: usize = 16;

/// Echoes that must come back for the model to count as keeping to a schema.
pub const ECHO_MIN: usize = 4;

/// How many scored items back the tier.
pub const PROBE_ITEMS: usize = 10;

/// The least number of items at which a tier is more than provisional.
pub const PROBE_ITEMS_TRUSTED: usize = 30;

/// What kind of answer a question wants.
#[derive(Clone, Copy, Debug, PartialEq, Eq, Structural)]
pub enum Wants {
    /// A JSON object with an integer `value`.
    Value,
    /// A JSON object with an integer `index`.
    Index,
    /// Free text.
    Text,
}

#[derive(Debug)]
pub struct Question {
    pub prompt: String,
    pub wants: Wants,
    /// How freely the model may choose its words, in millionths.
    pub temperature: i64,
    pub max_tokens: u32,
}

/// What came back.
#[derive(Debug)]
pub enum Answer {
    /// No reply, or one that does not have the shape asked for.
    Nothing,
    Number(i64),
    Text(String),
}

/// How far the probe has got.
#[derive(Clone, Copy, Debug, PartialEq, Eq, Structural)]
pub struct Progress {
    pub asked: usize,
    pub json_ok: usize,
    pub hits: usize,
    pub gen_hits: usize,
    /// Words produced by the throughput question.
    pub produced: usize,
}

impl Progress {
    pub open spec fn wf(&self) -> bool {
        &&& self.asked <= QUESTIONS
        &&& self.json_ok <= ECHO_ITEMS
        &&& self.hits <= SELECTION_ITEMS
        &&& self.gen_hits <= GENERATION_ITEMS
        &&& self.json_ok <= self.asked
        &&& self.hits + ECHO_ITEMS <= self.asked || self.hits == 0
        &&& self.gen_hits + ECHO_ITEMS + SELECTION_ITEMS <= self.asked || self.gen_hits == 0
    }

    /// A model that cannot even echo is asked nothing more.
    pub open spec fn is_done(&self) -> bool {
        self.asked >= QUESTIONS || (self.asked >= ECHO_ITEMS && self.json_ok == 0)
    }

    pub fn new() -> (p: Progress)
        ensures
            p == (Progress { asked: 0, json_ok: 0, hits: 0, gen_hits: 0, produced: 0 }),
            p.wf(),
    {
        Progress { asked: 0, json_ok: 0, hits: 0, gen_hits: 0, produced: 0 }
    }

    pub fn done(&self) -> (b: bool)
        ensures
            b == self.is_done(),
    {
        self.asked >= QUESTIONS || (self.asked >= ECHO_ITEMS && self.json_ok == 0)
    }
}

// ---------------------------------------------------------------------------
// The questions
// ---------------------------------------------------------------------------
/// What the `k`-th selection item describes. Index 0 is always "leave it
/// alone", so abstaining can be said.
pub open spec fn situation(k: int) -> Seq<char> {
    if k == 0 {
        "The speaker said a word that sounded like 'division' while the screen shows a field labelled Duration."@
    } else if k == 1 {
        "The speaker said 'blockboard' while the screen shows a button labelled Block."@
    } else if k == 2 {
        "The speaker said 'twenty twenty' and no related word appears on screen."@
    } else if k == 3 {
        "A phrase repeats: 'I have added some images' then 'I have added some images so that'."@
    } else if k == 4 {
        "A phrase repeats introduced by 'Second,' in a list of options."@
    } else {
        "The recording is a screen capture of a phone emulator with a webcam overlay."@
    }
}

pub open spec fn options(k: int) -> Seq<char> {
    if k == 0 {
        "0 = keep as heard, 1 = duration, 2 = schedules"@
    } else if k == 1 {
        "0 = keep as heard, 1 = block, 2 = keyboard"@
    } else if k == 2 {
        "0 = keep as heard, 1 = BrainClean, 2 = schedules"@
    } else if k == 3 {
        "0 = not a repeat, 1 = a restart worth cutting"@
    } else if k == 4 {
        "0 = a list, leave it, 1 = a restart worth cutting"@
    } else {
        "0 = event footage, 1 = app demo, 2 = musical performance"@
    }
}

/// The right answer to the `k`-th selection item.
pub open spec fn right_index(k: int) -> i64 {
    if k == 2 || k == 4 {
        0
    } else {
        1
    }
}

/// The `k`-th generation item. The answer is never in the question.
pub open spec fn repair_prompt(k: int) -> Seq<char> {
    if k == 0 {
        "Fix this line from an automatic transcript of a phone app demo. Reply with only the corrected line.\n\nwhat the division does is block the apps until that division has passed"@
    } else if k == 1 {
        "Fix this line from an automatic transcript of a phone app demo. Reply with only the corrected line.\n\nlets say we are working on a leading task where you read a book"@
    } else if k == 2 {
        "Fix this line from an automatic transcript about eye health. Reply with only the corrected line.\n\nthis is the 2020 2022 rule so you look away for twenty seconds"@
    } else {
        "Fix this line from an automatic transcript of a phone app demo. Reply with only the corrected line.\n\nlet me demonstrate my application powerpoint which blocks distracting apps"@
    }
}

/// What a right repair of the `k`-th item must contain.
pub open spec fn repair_word(k: int) -> Seq<char> {
    if k == 0 {
        "duration"@
    } else if k == 1 {
        "reading"@
    } else if k == 2 {
        "20-20-20"@
    } else {
        "brainclean"@
    }
}

/// The text of the `n`-th question.
pub open spec fn prompt(n: int) -> Seq<char> {
    if n < 5 {
        "Reply with JSON where value is exactly "@ + decimal((n + 1) as nat) + "."@
    } else if n < 11 {
        "Pick exactly one option by index.\n\nSITUATION: "@ + situation(n - 5) + "\n\nOPTIONS: "@
            + options(n - 5) + "\n\nReply JSON."@
    } else if n < 15 {
        repair_prompt(n - 11)
    } else {
        "Count from 1 to 60, separated by spaces."@
    }
}

pub open spec fn wants(n: int) -> Wants {
    if n < 5 {
        Wants::Value
    } else if n < 11 {
        Wants::Index
    } else {
        Wants::Text
    }
}

pub open spec fn max_tokens(n: int) -> int {
    if n < 11 {
        50
    } else if n < 15 {
        120
    } else {
        200
    }
}

fn situation_text(k: usize) -> (s: &'static str)
    ensures
        s@ == situation(k as int),
{
    if k == 0 {
        "The speaker said a word that sounded like 'division' while the screen shows a field labelled Duration."
    } else if k == 1 {
        "The speaker said 'blockboard' while the screen shows a button labelled Block."
    } else if k == 2 {
        "The speaker said 'twenty twenty' and no related word appears on screen."
    } else if k == 3 {
        "A phrase repeats: 'I have added some images' then 'I have added some images so that'."
    } else if k == 4 {
        "A phrase repeats introduced by 'Second,' in a list of options."
    } else {
        "The recording is a screen capture of a phone emulator with a webcam overlay."
    }
}

fn options_text(k: usize) -> (s: &'static str)
    ensures
        s@ == options(k as int),
{
    if k == 0 {
        "0 = keep as heard, 1 = duration, 2 = schedules"
    } else if k == 1 {
        "0 = keep as heard, 1 = block, 2 = keyboard"
    } else if k == 2 {
        "0 = keep as heard, 1 = BrainClean, 2 = schedules"
    } else if k == 3 {
        "0 = not a repeat, 1 = a restart worth cutting"
    } else if k == 4 {
        "0 = a list, leave it, 1 = a restart worth cutting"
    } else {
        "0 = event footage, 1 = app demo, 2 = musical performance"
    }
}

fn repair_text(k: usize) -> (s: &'static str)
    ensures
        s@ == repair_prompt(k as int),
{
    if k == 0 {
        "Fix this line from an automatic transcript of a phone app demo. Reply with only the corrected line.\n\nwhat the division does is block the apps until that division has passed"
    } else if k == 1 {
        "Fix this line from an automatic transcript of a phone app demo. Reply with only the corrected line.\n\nlets say we are working on a leading task where you read a book"
    } else if k == 2 {
        "Fix this line from an automatic transcript about eye health. Reply with only the corrected line.\n\nthis is the 2020 2022 rule so you look away for twenty seconds"
    } else {
        "Fix this line from an automatic transcript of a phone app demo. Reply with only the corrected line.\n\nlet me demonstrate my application powerpoint which blocks distracting apps"
    }
}

fn repair_answer(k: usize) -> (s: &'static str)
    ensures
        s@ == repair_word(k as int),
{
    if k == 0 {
        "duration"
    } else if k == 1 {
        "reading"
    } else if k == 2 {
        "20-20-20"
    } else {
        "brainclean"
    }
}

/// The next question, until the probe is done.
pub fn next_question(p: &Progress) -> (q: Option<Question>)
    requires
        p.wf(),
    ensures
        match q {
            Some(q) => !p.is_done() && q.prompt@ == prompt(p.asked as int) && q.wants == wants(
                p.asked as int,
            ) && q.temperature == TEMPERATURE && q.max_tokens == max_tokens(p.asked as int),
            None => p.is_done(),
        },
{
    if p.done() {
        return None;
    }
    let n: usize = p.asked;
    let mut text = String::new();
    if n < 5 {
        text.append("Reply with JSON where value is exactly ");
        push_decimal(&mut text, n as u64 + 1);
        text.append(".");
        assert(text@ =~= prompt(n as int));
        Some(Question { prompt: text, wants: Wants::Value, temperature: TEMPERATURE, max_tokens: 50 })
    } else if n < 11 {
        text.append("Pick exactly one option by index.\n\nSITUATION: ");
        text.append(situation_text(n - 5));
        text.append("\n\nOPTIONS: ");
        text.append(options_text(n - 5));
        text.append("\n\nReply JSON.");
        assert(text@ =~= prompt(n as int));
        Some(Question { prompt: text, wants: Wants::Index, temperature: TEMPERATURE, max_tokens: 50 })
    } else if n < 15 {
        text.append(repair_text(n - 11));
        assert(text@ =~= prompt(n as int));
        Some(Question { prompt: text, wants: Wants::Text, temperature: TEMPERATURE, max_tokens: 120 })
    } else {
        text.append("Count from 1 to 60, separated by spaces.");
        assert(text@ =~= prompt(n as int));
        Some(Question { prompt: text, wants: Wants::Text, temperature: TEMPERATURE, max_tokens: 200 })
    }
}

// ---------------------------------------------------------------------------
// The answers
// ---------------------------------------------------------------------------
/// The answer to the `n`-th question is right.
pub open spec fn is_right(n: int, a: Answer) -> bool {
    if n < 5 {
        a matches Answer::Number(v) && v == n + 1
    } else if n < 11 {
        a matches Answer::Number(v) && v == right_index(n - 5)
    } else if n < 15 {
        a matches Answer::Text(t) && occurs(lower(t@), repair_word(n - 11))
    } else {
        false
    }
}

/// One more right answer counts for one.
pub open spec fn credit(b: bool) -> int {
    if b {
        1
    } else {
        0
    }
}

/// The progress after one more answer.
pub open spec fn answered(p: Progress, a: Answer) -> Progress {
    let n = p.asked as int;
    Progress {
        asked: (n + 1) as usize,
        json_ok: (p.json_ok + credit(n < 5 && is_right(n, a))) as usize,
        hits: (p.hits + credit(5 <= n < 11 && is_right(n, a))) as usize,
        gen_hits: (p.gen_hits + credit(11 <= n < 15 && is_right(n, a))) as usize,
        produced: match a {
            Answer::Text(t) => if n == 15 {
                words(t@).len() as usize
            } else {
                p.produced
            },
            _ => p.produced,
        },
    }
}

/// Takes one answer into account.
pub fn record(p: Progress, a: Answer) -> (q: Progress)
    requires
        p.wf(),
        !p.is_done(),
    ensures
        q == answered(p, a),
        q.wf(),
{
    let n: usize = p.asked;
    let mut q = p;
    match a {
        Answer::Nothing => {},
        Answer::Number(v) => {
            if n < 5 {
                if v == n as i64 + 1 {
                    q.json_ok = q.json_ok + 1;
                }
            } else if n < 11 {
                let right: i64 = if n == 7 || n == 9 {
                    0
                } else {
                    1
                };
                if v == right {
                    q.hits = q.hits + 1;
                }
            }
        },
        Answer::Text(t) => {
            if n >= 11 && n < 15 {
                if contains(t.as_str().to_lowercase().as_str(), repair_answer(n - 11)) {
                    q.gen_hits = q.gen_hits + 1;
                }
            } else if n == 15 {
                let ws = split_whitespace(t.as_str());
                q.produced = ws.len();
            }
        },
    }
    q.asked = n + 1;
    q
}

/// A share in millionths, rounded down.
pub open spec fn share(hits: int, items: int) -> int {
    hits * 1_000_000 / items
}

/// What the model can be trusted with, once the probe is done. `elapsed_us` is
/// how long the last question took.
pub fn probe(name: &str, p: &Progress, elapsed_us: u64) -> (c: Capabilities)
    requires
        p.wf(),
        p.is_done(),
    ensures
        c.name@ == name@,
        c.json_mode == (p.json_ok >= ECHO_MIN),
        c.tier == Tier::spec_from_scores(c.selection as int, c.generation as int),
        p.json_ok == 0 ==> c.tok_per_sec == 0 && c.selection == 0 && c.generation == 0 && c.tier
            == Tier::Fallback,
        p.json_ok > 0 ==> {
            &&& c.selection == share(p.hits as int, SELECTION_ITEMS as int)
            &&& c.generation == share(p.gen_hits as int, GENERATION_ITEMS as int)
            &&& c.tok_per_sec == p.produced * 1_000_000_000_000 / (if elapsed_us == 0 {
                1
            } else {
                elapsed_us as int
            })
        },
{
    if p.json_ok == 0 {
        return Capabilities {
            name: name.to_string(),
            json_mode: false,
            tok_per_sec: 0,
            selection: 0,
            generation: 0,
            tier: Tier::Fallback,
        };
    }
    let selection: i64 = p.hits as i64 * 1_000_000 / 6;
    let generation: i64 = p.gen_hits as i64 * 1_000_000 / 4;
    let secs: u128 = if elapsed_us == 0 {
        1
    } else {
        elapsed_us as u128
    };
    assert(p.produced <= 0xffff_ffff_ffff_ffff);
    Capabilities {
        name: name.to_string(),
        json_mode: p.json_ok >= ECHO_MIN,
        tok_per_sec: p.produced as u128 * 1_000_000_000_000 / secs,
        selection,
        generation,
        tier: Tier::from_scores(selection, generation),
    }
}

/// The progress after a list of answers, none of them past the end.
pub open spec fn progress_after(answers: Seq<Answer>) -> Progress
    decreases answers.len(),
{
    if answers.len() == 0 {
        Progress { asked: 0, json_ok: 0, hits: 0, gen_hits: 0, produced: 0 }
    } else {
        let p = progress_after(answers.drop_last());
        if p.is_done() {
            p
        } else {
            answered(p, answers.last())
        }
    }
}

/// A provider that never answers is found out by the echo questions: the probe
/// stops there, and nothing is trusted to it.
pub proof fn law_silence_ends_the_probe(answers: Seq<Answer>)
    requires
        answers.len() <= ECHO_ITEMS,
        forall|k: int| 0 <= k < answers.len() ==> (#[trigger] answers[k]) is Nothing,
    ensures
        progress_after(answers).json_ok == 0,
        progress_after(answers).asked == answers.len(),
        answers.len() == ECHO_ITEMS ==> progress_after(answers).is_done(),
    decreases answers.len(),
{
    if answers.len() > 0 {
        let front = answers.drop_last();
        assert forall|k: int| 0 <= k < front.len() implies (#[trigger] front[k]) is Nothing by {
            assert(front[k] == answers[k]);
        }
        law_silence_ends_the_probe(front);
        assert(answers[answers.len() - 1] is Nothing);
    }
}

/// How many of the questions `from..to` are answered right.
pub open spec fn right_answers(answers: Seq<Answer>, from: int, to: int) -> int
    decreases to - from,
{
    if to <= from {
        0
    } else {
        right_answers(answers, from, to - 1) + credit(is_right(to - 1, answers[to - 1]))
    }
}

/// How many questions a model that has these answers to give is asked.
pub open spec fn questions_asked(answers: Seq<Answer>) -> int {
    let n = answers.len() as int;
    if n >= ECHO_ITEMS && right_answers(answers, 0, ECHO_ITEMS as int) == 0 {
        ECHO_ITEMS as int
    } else if n < QUESTIONS {
        n
    } else {
        QUESTIONS as int
    }
}

/// The answers up to some point decide the count up to there.
proof fn lemma_right_answers_front(answers: Seq<Answer>, from: int, to: int)
    requires
        0 <= from,
        to < answers.len(),
    ensures
        right_answers(answers, from, to) == right_answers(answers.drop_last(), from, to),
        from <= to ==> 0 <= right_answers(answers, from, to) <= to - from,
    decreases to - from,
{
    if from < to {
        lemma_right_answers_front(answers, from, to - 1);
        assert(answers.drop_last()[to - 1] == answers[to - 1]);
    }
}

pub open spec fn up_to(n: int, limit: int) -> int {
    if n < limit {
        n
    } else {
        limit
    }
}

/// The probe goes as far as it has to. A model that echoes nothing right is
/// asked the echo questions and no more; one that echoes at least one of them
/// right is asked every question. Each score counts the right answers of its
/// kind.
pub proof fn law_the_probe_asks_what_it_has_to(answers: Seq<Answer>)
    ensures
        ({
            let p = progress_after(answers);
            let asked = questions_asked(answers);
            &&& p.wf()
            &&& p.asked == asked
            &&& p.is_done() <==> asked == QUESTIONS || (asked == ECHO_ITEMS && right_answers(
                answers,
                0,
                ECHO_ITEMS as int,
            ) == 0)
            &&& p.json_ok == right_answers(answers, 0, up_to(asked, 5))
            &&& p.hits == right_answers(answers, 5, up_to(asked, 11))
            &&& p.gen_hits == right_answers(answers, 11, up_to(asked, 15))
        }),
    decreases answers.len(),
{
    if answers.len() > 0 {
        let front = answers.drop_last();
        let n = front.len() as int;
        law_the_probe_asks_what_it_has_to(front);
        let p = progress_after(front);
        assert(answers.last() == answers[n]);
        lemma_right_answers_front(answers, 0, up_to(n, 5));
        lemma_right_answers_front(answers, 5, up_to(n, 11));
        lemma_right_answers_front(answers, 11, up_to(n, 15));
        if n >= 5 {
            lemma_right_answers_front(answers, 5, up_to(questions_asked(front), 11));
            lemma_right_answers_front(answers, 11, up_to(questions_asked(front), 15));
        }
    }
}

// ---------------------------------------------------------------------------
// Telling the user
// ---------------------------------------------------------------------------
/// What a tier will and will not do.
pub open spec fn tier_text(t: Tier) -> Seq<char> {
    match t {
        Tier::Fallback => " — no usable model. Captions stay raw ASR, chapters are \"Section N\". The edit is unaffected."@,
        Tier::Small => " — selection enabled with strict gates, generation disabled. Caption corrections are proposed for review, not applied."@,
        Tier::Mid => " — selection and classification enabled, generation disabled."@,
        Tier::Large => " — all tasks enabled including generation."@,
    }
}

/// The caveat while the probe is too small to trust.
pub open spec fn caveat() -> Seq<char> {
    if PROBE_ITEMS < PROBE_ITEMS_TRUSTED {
        " (tier PROVISIONAL — "@ + decimal(PROBE_ITEMS as nat) + " probe items, "@ + decimal(
            PROBE_ITEMS_TRUSTED as nat,
        ) + "+ needed to trust it)"@
    } else {
        Seq::empty()
    }
}

/// Says what the model will and will not be used for.
pub fn describe(c: &Capabilities) -> (r: String)
    ensures
        r@ == c.name@ + tier_text(c.tier) + caveat(),
{
    let mut r = c.name.clone();
    r.append(describe_tier(c.tier));
    if PROBE_ITEMS < PROBE_ITEMS_TRUSTED {
        r.append(" (tier PROVISIONAL — ");
        r.append(show_count(PROBE_ITEMS).as_str());
        r.append(" probe items, ");
        r.append(show_count(PROBE_ITEMS_TRUSTED).as_str());
        r.append("+ needed to trust it)");
    }
    assert(r@ =~= c.name@ + tier_text(c.tier) + caveat());
    r
}

fn describe_tier(t: Tier) -> (s: &'static str)
    ensures
        s@ == tier_text(t),
{
    match t {
        Tier::Fallback => " — no usable model. Captions stay raw ASR, chapters are \"Section N\". The edit is unaffected.",
        Tier::Small => " — selection enabled with strict gates, generation disabled. Caption corrections are proposed for review, not applied.",
        Tier::Mid => " — selection and classification enabled, generation disabled.",
        Tier::Large => " — all tasks enabled including generation.",
    }
}

// ---------------------------------------------------------------------------
// Laws
// ---------------------------------------------------------------------------
/// A share is the hits over the items, in millionths, rounded down.
pub proof fn law_shares_are_of_the_items(hits: int, items: int)
    requires
        items > 0,
    ensures
        items * share(hits, items) <= 1_000_000 * hits < items * share(hits, items) + items,
{
    crate::plan::lemma_quotient(hits * 1_000_000, items, share(hits, items));
}

/// Five echoes come first, then six selections, four repairs and one count. An
/// echo is right when it gives back the number asked for, a selection when it
/// picks the right option, which is to leave things alone for the third and the
/// fifth and the first option for every other.
pub proof fn law_questions_come_in_order(n: int, a: Answer)
    requires
        0 <= n < 16,
    ensures
        wants(n) is Value <==> n < 5,
        wants(n) is Index <==> 5 <= n < 11,
        wants(n) is Text <==> 11 <= n,
        n < 5 ==> (is_right(n, a) <==> (a matches Answer::Number(v) && v == n + 1)),
        5 <= n < 11 ==> (is_right(n, a) <==> (a matches Answer::Number(v) && v == (if n == 7 || n
            == 9 {
            0int
        } else {
            1
        }))),
        n == 15 ==> !is_right(n, a),
{
}

/// A right answer counts once and under its own kind; a wrong one counts
/// nowhere, and every answer takes the probe one question further.
pub proof fn law_an_answer_counts_once(p: Progress, a: Answer)
    requires
        p.wf(),
        !p.is_done(),
    ensures
        ({
            let (n, q) = (p.asked as int, answered(p, a));
            let right = if is_right(n, a) {
                1int
            } else {
                0
            };
            &&& q.asked == n + 1
            &&& (q.json_ok - p.json_ok) + (q.hits - p.hits) + (q.gen_hits - p.gen_hits) == right
            &&& n >= 5 ==> q.json_ok == p.json_ok
            &&& n < 5 || n >= 11 ==> q.hits == p.hits
            &&& n < 11 ==> q.gen_hits == p.gen_hits
        }),
{
}

/// The probe is over after sixteen questions, or after five where none of them
/// was echoed right.
pub proof fn law_the_probe_ends_after_sixteen(p: Progress)
    ensures
        p.is_done() <==> p.asked >= 16 || p.asked >= 5 && p.json_ok == 0,
{
}

} // verus!
