//! What holds of the edit as a whole.
use vstd::prelude::*;

use crate::captions::{law_pieces_keep_words, pieces, wrapped, Word, MAX_LINES, WRAP};
use crate::constants::{GATE_DB, TIME_MAX};
use crate::cues::{
    all_held, all_retimed, all_shared, by_start, captions_of, cue_starts, cue_texts,
    file_lines, grouped, law_cues_keep_words, law_shown_lines_begin_the_text, lemma_delivered,
    shared, shown_lines, spaced, timed, word_texts, CueView,
};
use crate::dead_air::{kept_runs, law_planned_runs_are_silent, trimmed_runs};
use crate::order::{is_order, lemma_order_of, order_of};
use crate::plan::{
    in_changed_run, law_merging_keeps_what_plays, law_only_dead_air_changes,
    law_output_time_never_goes_back, lemma_scaled_grows, merged, output_time, plays_as_recorded,
    segments_of, Pacing, Plan, Segment,
};
use crate::text::{all_words, lemma_all_words_append};
use crate::vad::slices_us;

verus! {

// ---------------------------------------------------------------------------
// Speech
// ---------------------------------------------------------------------------
/// The segments that a recording is first cut into, before disfluencies.
pub open spec fn first_cut(
    speech: Seq<bool>,
    frozen: Seq<bool>,
    energy: Seq<i64>,
    min: int,
    src_duration: int,
    pacing: Pacing,
) -> Seq<Segment> {
    merged(
        segments_of(
            trimmed_runs(energy, GATE_DB, kept_runs(speech, frozen, min)),
            speech.len() as int,
            src_duration,
            pacing,
        ),
    )
}

/// No pacing and no pause floor touches speech: every moment of a slice that was
/// marked as speech plays as recorded. `min` is the pause floor in slices, and a
/// policy allows none lower than fifteen.
pub proof fn law_speech_plays_as_recorded(
    speech: Seq<bool>,
    frozen: Seq<bool>,
    energy: Seq<i64>,
    min: int,
    src_duration: int,
    pacing: Pacing,
    i: int,
    t: int,
)
    requires
        pacing.wf(),
        2 * speech.len() + 400 <= usize::MAX,
        2 * speech.len() <= energy.len() + 30 <= usize::MAX,
        min >= 15,
        slices_us(speech.len() as int) <= src_duration <= TIME_MAX,
        0 <= i < speech.len(),
        speech[i],
        slices_us(i) <= t < slices_us(i + 1),
    ensures
        plays_as_recorded(first_cut(speech, frozen, energy, min, src_duration, pacing), t),
{
    let n = speech.len() as int;
    let runs = trimmed_runs(energy, GATE_DB, kept_runs(speech, frozen, min));
    law_planned_runs_are_silent(speech, frozen, energy, min);
    law_only_dead_air_changes(runs, n, src_duration, pacing);
    if in_changed_run(runs, pacing, t) {
        let k = choose|k: int|
            0 <= k < runs.len() && crate::plan::is_changed(#[trigger] runs[k], pacing)
                && slices_us(runs[k].0 as int) <= t < slices_us(runs[k].1 as int);
        assert(runs[k].0 <= i < runs[k].1);
    }
    let segs = segments_of(runs, n, src_duration, pacing);
    assert(plays_as_recorded(segs, t));
    assert forall|k: int| 0 <= k < segs.len() implies (#[trigger] segs[k]).src_start
        <= segs[k].src_end && segs[k].speed.wf() by {}
    law_merging_keeps_what_plays(segs, t);
}

// ---------------------------------------------------------------------------
// Captions
// ---------------------------------------------------------------------------
/// Sharing a cue out among its pieces keeps what it says.
proof fn lemma_shared_words(cues: Seq<CueView>)
    ensures
        all_words(cue_texts(all_shared(cues))) == all_words(cue_texts(cues)),
    decreases cues.len(),
{
    if cues.len() == 0 {
        assert(cue_texts(all_shared(cues)) =~= cue_texts(cues));
    } else {
        let front = cues.drop_last();
        let c = cues.last();
        lemma_shared_words(front);
        law_pieces_keep_words(c.text);
        assert(cue_texts(shared(c)) =~= pieces(c.text));
        assert(cue_texts(all_shared(cues)) =~= cue_texts(all_shared(front)) + cue_texts(shared(c)));
        lemma_all_words_append(cue_texts(all_shared(front)), cue_texts(shared(c)));
        assert(cue_texts(cues).drop_last() =~= cue_texts(front));
        assert(cue_texts(cues).last() == c.text);
    }
}

/// Keys that are in order already stay where they are.
proof fn lemma_already_ordered(keys: Seq<i64>)
    requires
        keys.len() <= usize::MAX,
        forall|i: int, j: int| 0 <= i < j < keys.len() ==> keys[i] <= keys[j],
    ensures
        order_of(keys).len() == keys.len(),
        forall|k: int| 0 <= k < keys.len() ==> #[trigger] order_of(keys)[k] == k,
{
    let order = Seq::new(keys.len(), |k: int| k as usize);
    assert(is_order(keys, order)) by {
        assert forall|k: usize| 0 <= k < keys.len() implies #[trigger] order.contains(k) by {
            assert(order[k as int] == k);
        }
    }
    lemma_order_of(keys, order);
}

/// The fragments that are timed say what the transcript says: every word, in
/// order. The cues of the transcript are taken to come in time order. What the
/// file shows of them is another matter: see
/// [`law_caption_file_keeps_words`].
pub proof fn law_captions_keep_words(ws: Seq<Word>, plan: Plan, measured: int)
    requires
        plan.wf(),
        0 < plan.out_duration_us,
        0 < measured <= TIME_MAX,
        grouped(ws).len() <= usize::MAX,
        forall|i: int, j: int|
            0 <= i < j < grouped(ws).len() ==> (#[trigger] grouped(ws)[i]).start <= (
            #[trigger] grouped(ws)[j]).start,
    ensures
        all_words(cue_texts(captions_of(ws, plan, measured))) == all_words(word_texts(ws)),
{
    let cues = grouped(ws);
    let moved = all_retimed(plan, measured, cues);
    let keys = cue_starts(moved);
    assert forall|i: int, j: int| 0 <= i < j < keys.len() implies keys[i] <= keys[j] by {
        let (a, b) = (cues[i].start as int, cues[j].start as int);
        lemma_delivered(plan, measured, a);
        lemma_delivered(plan, measured, b);
        law_output_time_never_goes_back(plan, a, b);
        lemma_scaled_grows(
            output_time(plan, a),
            output_time(plan, b),
            measured,
            plan.out_duration_us as int,
        );
    }
    lemma_already_ordered(keys);
    assert(by_start(moved) =~= moved);
    let placed = timed(ws, plan, measured);
    assert(placed == spaced(moved));
    assert(cue_texts(placed) =~= cue_texts(cues));
    lemma_shared_words(placed);
    let frags = all_shared(placed);
    assert(cue_texts(all_held(frags, measured)) =~= cue_texts(frags));
    law_cues_keep_words(ws);
}

/// The lines of the file hold what the fragments say, as long as none of them
/// wraps past the lines there is room for.
proof fn lemma_file_words(frags: Seq<CueView>)
    requires
        forall|k: int|
            0 <= k < frags.len() ==> wrapped((#[trigger] frags[k]).text, WRAP as int).len()
                <= MAX_LINES,
    ensures
        all_words(file_lines(frags)) == all_words(cue_texts(frags)),
    decreases frags.len(),
{
    if frags.len() == 0 {
        assert(file_lines(frags) =~= cue_texts(frags));
    } else {
        let front = frags.drop_last();
        let f = frags.last();
        assert(f == frags[frags.len() - 1]);
        lemma_file_words(front);
        law_shown_lines_begin_the_text(f.text);
        lemma_all_words_append(file_lines(front), shown_lines(f.text));
        assert(cue_texts(frags).drop_last() =~= cue_texts(front));
        assert(cue_texts(frags).last() == f.text);
    }
}

/// The caption file says what the transcript says: every word, in order, as long
/// as no fragment wraps past the lines there is room for. Where one does, the
/// words past them are left out: see [`law_shown_lines_begin_the_text`].
pub proof fn law_caption_file_keeps_words(ws: Seq<Word>, plan: Plan, measured: int)
    requires
        plan.wf(),
        0 < plan.out_duration_us,
        0 < measured <= TIME_MAX,
        grouped(ws).len() <= usize::MAX,
        forall|i: int, j: int|
            0 <= i < j < grouped(ws).len() ==> (#[trigger] grouped(ws)[i]).start <= (
            #[trigger] grouped(ws)[j]).start,
        forall|k: int|
            0 <= k < captions_of(ws, plan, measured).len() ==> wrapped(
                (#[trigger] captions_of(ws, plan, measured)[k]).text,
                WRAP as int,
            ).len() <= MAX_LINES,
    ensures
        all_words(file_lines(captions_of(ws, plan, measured))) == all_words(word_texts(ws)),
{
    law_captions_keep_words(ws, plan, measured);
    lemma_file_words(captions_of(ws, plan, measured));
}

} // verus!
