//! Measurements on the finished file, each with a limit that it must meet.
//!
//! Every check reports what it measured, whether it passed or not. Nothing here
//! asks a model for an opinion.
use vstd::prelude::*;

use crate::constants::{MASTER_TP, TIME_MAX};
use crate::freeze::{after_mark, find_after_mark};
use crate::num::{
    decimal, fixed, fixed_magnitude, fixed_signed, minus, push_decimal, read_number, reading,
    show_count, show_fixed, show_fixed_nano, show_fixed_signed, sign, subtract, NOT_A_NUMBER,
};
use crate::order::{before, lemma_an_order_exists, order_of, stable_order};
use crate::plan::{lemma_playing, map_to_source, source_time, Plan, PlanSegment};
use crate::text::{chars_of, split_whitespace, views, words};

verus! {

/// The outcome of one measurement.
#[derive(Debug)]
pub struct Check {
    pub name: &'static str,
    pub passed: bool,
    pub detail: String,
}

#[verifier::ext_equal]
pub struct CheckView {
    pub name: Seq<char>,
    pub passed: bool,
    pub detail: Seq<char>,
}

impl View for Check {
    type V = CheckView;

    open spec fn view(&self) -> CheckView {
        CheckView { name: self.name@, passed: self.passed, detail: self.detail@ }
    }
}

pub open spec fn distance(a: int, b: int) -> int {
    if a < b {
        b - a
    } else {
        a - b
    }
}

// ---------------------------------------------------------------------------
// Duration
// ---------------------------------------------------------------------------
/// Sped segments round to whole frames, so the file runs a touch long. More
/// than this and the plan and the file disagree.
pub const DURATION_SLACK_US: i64 = 500_000;

pub open spec fn duration_check(measured: int, planned: int) -> CheckView {
    CheckView {
        name: "duration"@,
        passed: -DURATION_SLACK_US <= minus(measured, planned) <= DURATION_SLACK_US,
        detail: fixed(measured, 2) + "s vs plan "@ + fixed(planned, 2) + "s ("@ + fixed_signed(
            minus(measured, planned),
            2,
        ) + "s)"@,
    }
}

/// The length of the file against that of the plan.
pub fn check_duration(measured_us: i64, plan: &Plan) -> (c: Check)
    ensures
        c@ == duration_check(measured_us as int, plan.out_duration_us as int),
{
    let planned: i64 = plan.out_duration_us;
    let diff: i64 = subtract(measured_us, planned);
    let mut detail = show_fixed(measured_us, 2);
    detail.append("s vs plan ");
    detail.append(show_fixed(planned, 2).as_str());
    detail.append("s (");
    detail.append(show_fixed_signed(diff, 2).as_str());
    detail.append("s)");
    let c = Check {
        name: "duration",
        passed: -DURATION_SLACK_US <= diff && diff <= DURATION_SLACK_US,
        detail,
    };
    assert(c@ =~= duration_check(measured_us as int, plan.out_duration_us as int));
    c
}

// ---------------------------------------------------------------------------
// Fast start
// ---------------------------------------------------------------------------
/// How much of the file's head is looked at.
pub const HEAD_BYTES: usize = 65536;

/// The four bytes of `tag` stand at index `i`.
pub open spec fn tag_at(bytes: Seq<u8>, tag: Seq<u8>, i: int) -> bool {
    0 <= i && i + tag.len() <= bytes.len() && bytes.subrange(i, i + tag.len()) == tag
}

/// Where `tag` first stands at or after index `from`.
pub open spec fn first_tag(bytes: Seq<u8>, tag: Seq<u8>, from: int) -> Option<int>
    decreases bytes.len() + 1 - from,
{
    if from > bytes.len() {
        None
    } else if tag_at(bytes, tag, from) {
        Some(from)
    } else {
        first_tag(bytes, tag, from + 1)
    }
}

/// Past the last place with room for the tag there is none.
proof fn lemma_no_room(bytes: Seq<u8>, tag: Seq<u8>, from: int)
    requires
        from + tag.len() > bytes.len(),
    ensures
        first_tag(bytes, tag, from) is None,
    decreases bytes.len() + 1 - from,
{
    if from <= bytes.len() {
        lemma_no_room(bytes, tag, from + 1);
    }
}

/// Where a tag first stands in the bytes.
pub fn find_atom(bytes: &[u8], tag: &[u8; 4]) -> (at: Option<usize>)
    ensures
        match at {
            Some(i) => first_tag(bytes@, tag@, 0) == Some(i as int),
            None => first_tag(bytes@, tag@, 0) is None,
        },
{
    let n: usize = bytes.len();
    let mut i: usize = 0;
    while n >= 4 && i <= n - 4
        invariant
            n == bytes@.len(),
            i <= n,
            first_tag(bytes@, tag@, 0) == first_tag(bytes@, tag@, i as int),
        decreases n - i,
    {
        if bytes[i] == tag[0] && bytes[i + 1] == tag[1] && bytes[i + 2] == tag[2] && bytes[i + 3]
            == tag[3] {
            assert(bytes@.subrange(i as int, i + 4) =~= tag@);
            return Some(i);
        }
        assert(!tag_at(bytes@, tag@, i as int)) by {
            let s = bytes@.subrange(i as int, i + 4);
            assert(s[0] == bytes@[i as int] && s[1] == bytes@[i + 1] && s[2] == bytes@[i + 2]
                && s[3] == bytes@[i + 3]);
        }
        i += 1;
    }
    proof {
        lemma_no_room(bytes@, tag@, i as int);
    }
    None
}

/// A position as it is printed when it may be missing.
pub open spec fn shown_at(at: Option<int>) -> Seq<char> {
    match at {
        Some(i) => "Some("@ + decimal(i as nat) + ")"@,
        None => "None"@,
    }
}

pub open spec fn as_position(at: Option<usize>) -> Option<int> {
    match at {
        Some(i) => Some(i as int),
        None => None,
    }
}

fn show_at(at: Option<usize>) -> (r: String)
    ensures
        r@ == shown_at(as_position(at)),
{
    match at {
        Some(i) => {
            let mut r = "Some(".to_string();
            push_decimal(&mut r, i as u64);
            r.append(")");
            r
        },
        None => "None".to_string(),
    }
}

/// The index comes before the data: the data may also lie past the head.
pub open spec fn starts_fast(moov: Option<int>, mdat: Option<int>) -> bool {
    match (moov, mdat) {
        (Some(m), Some(d)) => m < d,
        (Some(_), None) => true,
        _ => false,
    }
}

/// The first bytes of a file, as many as are looked at.
pub open spec fn head_of(bytes: Seq<u8>) -> Seq<u8> {
    if bytes.len() <= HEAD_BYTES {
        bytes
    } else {
        bytes.take(HEAD_BYTES as int)
    }
}

pub open spec fn faststart_check(bytes: Seq<u8>) -> CheckView {
    let moov = first_tag(head_of(bytes), seq![109u8, 111u8, 111u8, 118u8], 0);
    let mdat = first_tag(head_of(bytes), seq![109u8, 100u8, 97u8, 116u8], 0);
    CheckView {
        name: "faststart"@,
        passed: starts_fast(moov, mdat),
        detail: "moov at "@ + shown_at(moov) + ", mdat at "@ + shown_at(mdat),
    }
}

/// Whether a player can start before it has the whole file: the `moov` atom
/// stands before `mdat` in the file's head.
pub fn check_faststart(bytes: &[u8]) -> (c: Check)
    ensures
        c@ == faststart_check(bytes@),
{
    let n: usize = if bytes.len() < HEAD_BYTES {
        bytes.len()
    } else {
        HEAD_BYTES
    };
    let head = vstd::slice::slice_subrange(bytes, 0, n);
    assert(head@ =~= head_of(bytes@));
    let moov_tag: [u8; 4] = [109u8, 111u8, 111u8, 118u8];
    let mdat_tag: [u8; 4] = [109u8, 100u8, 97u8, 116u8];
    let moov = find_atom(head, &moov_tag);
    let mdat = find_atom(head, &mdat_tag);
    assert(moov_tag@ =~= seq![109u8, 111u8, 111u8, 118u8]);
    assert(mdat_tag@ =~= seq![109u8, 100u8, 97u8, 116u8]);
    let passed = match (moov, mdat) {
        (Some(m), Some(d)) => m < d,
        (Some(_), None) => true,
        _ => false,
    };
    let mut detail = "moov at ".to_string();
    detail.append(show_at(moov).as_str());
    detail.append(", mdat at ");
    detail.append(show_at(mdat).as_str());
    let c = Check { name: "faststart", passed, detail };
    assert(c@ =~= faststart_check(bytes@));
    c
}

// ---------------------------------------------------------------------------
// Loudness
// ---------------------------------------------------------------------------
/// How far the delivered loudness may be off. The target is policy; this is
/// fixed, whatever the target.
pub const LOUDNESS_SLACK: i64 = 200_000;

/// How far the true peak may go over the ceiling: the encoder is the last to
/// touch the signal.
pub const PEAK_SLACK: i64 = 300_000;

pub open spec fn loudness_check(lufs: int, true_peak: int, target: int) -> CheckView {
    CheckView {
        name: "loudness"@,
        passed: -LOUDNESS_SLACK <= minus(lufs, target) <= LOUDNESS_SLACK && NOT_A_NUMBER
            < true_peak <= MASTER_TP + PEAK_SLACK,
        detail: fixed(lufs, 2) + " LUFS, "@ + fixed(true_peak, 2) + " dBTP"@,
    }
}

/// The delivered loudness and true peak against what was asked for. Silence
/// fails, and so does a measurement that gave no number.
pub fn check_loudness(lufs: i64, true_peak: i64, target_lufs: i64) -> (c: Check)
    ensures
        c@ == loudness_check(lufs as int, true_peak as int, target_lufs as int),
{
    let off: i64 = subtract(lufs, target_lufs);
    let mut detail = show_fixed(lufs, 2);
    detail.append(" LUFS, ");
    detail.append(show_fixed(true_peak, 2).as_str());
    detail.append(" dBTP");
    let c = Check {
        name: "loudness",
        passed: -LOUDNESS_SLACK <= off && off <= LOUDNESS_SLACK && NOT_A_NUMBER < true_peak
            && true_peak <= MASTER_TP + PEAK_SLACK,
        detail,
    };
    assert(c@ =~= loudness_check(lufs as int, true_peak as int, target_lufs as int));
    c
}

// ---------------------------------------------------------------------------
// Sound against picture
// ---------------------------------------------------------------------------
/// How many moments of the output are compared with the source.
pub const CHECKPOINTS: u32 = 7;

/// Two frames at least this alike show the same moment.
pub const SYNC_MIN: i64 = 900_000;

/// A moment of the output, and the source moment that should be on screen. It
/// has none where the plan does not place it.
#[derive(Clone, Copy, Debug, PartialEq, Eq, Structural)]
pub struct Checkpoint {
    pub out_t: i64,
    pub src_t: Option<i64>,
}

/// The `k`-th checkpoint: they divide the output evenly, its ends left out.
pub open spec fn checkpoint_time(out_duration: int, k: int) -> int {
    out_duration * k / (CHECKPOINTS + 1)
}

/// The moments to compare, in order.
pub fn sync_checkpoints(plan: &Plan) -> (points: Vec<Checkpoint>)
    requires
        plan.segments_wf(),
        0 <= plan.out_duration_us <= TIME_MAX,
    ensures
        points@.len() == CHECKPOINTS,
        forall|i: int|
            0 <= i < points@.len() ==> {
                let p = #[trigger] points@[i];
                &&& p.out_t == checkpoint_time(plan.out_duration_us as int, i + 1)
                &&& source_time(plan.segments@, p.out_t as int) == (match p.src_t {
                    Some(t) => Some(t as int),
                    None => None,
                })
            },
{
    let mut points: Vec<Checkpoint> = Vec::new();
    let mut k: u32 = 1;
    while k <= 7
        invariant
            1 <= k <= 8,
            plan.segments_wf(),
            0 <= plan.out_duration_us <= TIME_MAX,
            points@.len() == k - 1,
            forall|i: int|
                0 <= i < points@.len() ==> {
                    let p = #[trigger] points@[i];
                    &&& p.out_t == checkpoint_time(plan.out_duration_us as int, i + 1)
                    &&& source_time(plan.segments@, p.out_t as int) == (match p.src_t {
                        Some(t) => Some(t as int),
                        None => None,
                    })
                },
        decreases 8 - k,
    {
        let ghost (gd, gk) = (plan.out_duration_us as int, k as int);
        assert(0 <= gd * gk <= 7 * TIME_MAX) by (nonlinear_arith)
            requires
                0 <= gd <= TIME_MAX,
                1 <= gk <= 7,
        ;
        let out_t: i64 = plan.out_duration_us * k as i64 / 8;
        let src_t = map_to_source(plan, out_t);
        points.push(Checkpoint { out_t, src_t });
        k += 1;
    }
    points
}

/// A plan that plays anything at all can be checked at every checkpoint.
pub proof fn law_every_checkpoint_is_placed(plan: Plan, k: int)
    requires
        plan.wf(),
        plan.out_duration_us > 0,
        1 <= k <= CHECKPOINTS,
    ensures
        source_time(
            plan.segments@,
            checkpoint_time(plan.out_duration_us as int, k),
        ) is Some,
{
    let d = plan.out_duration_us as int;
    assert(0 <= d * k && d * k <= d * 7) by (nonlinear_arith)
        requires
            d > 0,
            1 <= k <= 7,
    ;
    lemma_playing(plan, d * k / 8);
}

/// The smallest of the scores, and never more than one. A score that is no
/// number is passed over.
pub open spec fn worst_score(scores: Seq<i64>) -> int
    decreases scores.len(),
{
    if scores.len() == 0 {
        1_000_000
    } else {
        let w = worst_score(scores.drop_last());
        if NOT_A_NUMBER < scores.last() < w {
            scores.last() as int
        } else {
            w
        }
    }
}

pub open spec fn sync_check(scores: Seq<i64>, skipped: nat) -> CheckView {
    let worst = worst_score(scores);
    let detail = "worst "@ + fixed(worst, 3) + " over "@ + decimal(scores.len()) + " checkpoints"@;
    CheckView {
        name: "a/v sync"@,
        passed: scores.len() > 0 && worst >= SYNC_MIN,
        detail: if skipped > 0 {
            detail + " ("@ + decimal(skipped) + " could not be placed)"@
        } else {
            detail
        },
    }
}

/// How alike the frames were, each pair scored in millionths. With nothing
/// compared the check fails: it has checked nothing.
pub fn check_sync(scores: &Vec<i64>, skipped: usize) -> (c: Check)
    ensures
        c@ == sync_check(scores@, skipped as nat),
{
    let mut worst: i64 = 1_000_000;
    let mut k: usize = 0;
    while k < scores.len()
        invariant
            k <= scores@.len(),
            worst == worst_score(scores@.take(k as int)),
        decreases scores@.len() - k,
    {
        assert(scores@.take(k + 1).drop_last() =~= scores@.take(k as int));
        if NOT_A_NUMBER < scores[k] && scores[k] < worst {
            worst = scores[k];
        }
        k += 1;
    }
    assert(scores@.take(k as int) =~= scores@);
    let mut detail = "worst ".to_string();
    detail.append(show_fixed(worst, 3).as_str());
    detail.append(" over ");
    detail.append(show_count(scores.len()).as_str());
    detail.append(" checkpoints");
    if skipped > 0 {
        detail.append(" (");
        detail.append(show_count(skipped).as_str());
        detail.append(" could not be placed)");
    }
    let c = Check { name: "a/v sync", passed: scores.len() > 0 && worst >= SYNC_MIN, detail };
    assert(c@ =~= sync_check(scores@, skipped as nat));
    c
}

/// Two frames are taken to show the same moment.
pub open spec fn alike(score: i64) -> bool {
    score >= SYNC_MIN || score == NOT_A_NUMBER
}

/// Every score counts: the check passes only if each of them that is a number is
/// high enough, and one that is too low fails it.
pub proof fn law_sync_needs_every_score(scores: Seq<i64>, skipped: nat)
    ensures
        sync_check(scores, skipped).passed <==> scores.len() > 0 && forall|k: int|
            0 <= k < scores.len() ==> alike(#[trigger] scores[k]),
    decreases scores.len(),
{
    if scores.len() > 0 {
        let front = scores.drop_last();
        law_sync_needs_every_score(front, skipped);
        assert(forall|k: int| 0 <= k < front.len() ==> #[trigger] front[k] == scores[k]);
        assert(scores.last() == scores[scores.len() - 1]);
        if forall|k: int| 0 <= k < scores.len() ==> alike(#[trigger] scores[k]) {
            assert forall|k: int| 0 <= k < front.len() implies alike(#[trigger] front[k]) by {
                assert(alike(scores[k]));
            }
            assert(alike(scores[scores.len() - 1]));
        }
        if worst_score(scores) >= SYNC_MIN {
            assert(worst_score(front) >= SYNC_MIN);
            assert forall|k: int| 0 <= k < scores.len() implies alike(#[trigger] scores[k]) by {
                if k < front.len() {
                    assert(alike(front[k]));
                }
            }
        }
    }
}

/// Why the comparison of two frames cannot be read.
#[derive(Debug)]
pub enum SsimError {
    /// The report holds no score.
    Missing,
    /// Nothing follows the mark.
    Blank { text: String },
    /// What follows the mark is not a number.
    NotANumber { text: String },
}

/// The score in a comparison's report: the word after `All:`.
pub open spec fn ssim_word(report: Seq<char>) -> Option<Option<Seq<char>>> {
    match after_mark(report, "All:"@) {
        None => None,
        Some(t) => if words(t).len() == 0 {
            Some(None)
        } else {
            Some(Some(words(t)[0]))
        },
    }
}

/// Reads the score out of a comparison's report.
pub fn read_ssim(report: &str) -> (r: Result<i64, SsimError>)
    ensures
        match r {
            Ok(v) => ssim_word(report@) matches Some(Some(w)) && reading(w) == Some(v as int),
            Err(SsimError::Missing) => ssim_word(report@) is None,
            Err(SsimError::Blank { text }) => ssim_word(report@) == Some(None::<Seq<char>>)
                && after_mark(report@, "All:"@) == Some(text@),
            Err(SsimError::NotANumber { text }) => ssim_word(report@) == Some(Some(text@))
                && reading(text@) is None,
        },
{
    let v = chars_of(report);
    match find_after_mark(&v, "All:") {
        None => Err(SsimError::Missing),
        Some(rest) => {
            let ws = split_whitespace(rest.as_str());
            assert(views(ws@) == words(rest@));
            if ws.len() == 0 {
                return Err(SsimError::Blank { text: rest });
            }
            assert(views(ws@)[0] == ws@[0]@);
            match read_number(ws[0].as_str()) {
                Some(x) => Ok(x),
                None => Err(SsimError::NotANumber { text: ws[0].clone() }),
            }
        },
    }
}

// ---------------------------------------------------------------------------
// Splice clicks
// ---------------------------------------------------------------------------
/// Samples are amplitudes in billionths.
pub open spec fn samples_fit(samples: Seq<i64>) -> bool {
    forall|k: int| 0 <= k < samples.len() ==> -TIME_MAX <= #[trigger] samples[k] <= TIME_MAX
}

/// The jump into sample `i` from the one before.
pub open spec fn jump_at(samples: Seq<i64>, i: int) -> int {
    distance(samples[i] as int, samples[i - 1] as int)
}

/// All the jumps of a recording.
pub open spec fn jumps(samples: Seq<i64>) -> Seq<i64> {
    Seq::new((samples.len() - 1) as nat, |k: int| jump_at(samples, k + 1) as i64)
}

/// The jump that 99.9 percent of all jumps do not exceed.
pub open spec fn typical_peak(samples: Seq<i64>) -> i64 {
    let js = jumps(samples);
    js[order_of(js)[js.len() as int * 999 / 1000] as int]
}

/// How many values do not exceed `limit`.
pub open spec fn count_up_to(v: Seq<i64>, limit: int) -> nat
    decreases v.len(),
{
    if v.len() == 0 {
        0
    } else {
        count_up_to(v.drop_last(), limit) + (if v.last() <= limit {
            1nat
        } else {
            0nat
        })
    }
}

/// The places whose value does not exceed `limit`.
spec fn places_up_to(v: Seq<i64>, limit: int) -> Set<int> {
    Set::new(|i: int| 0 <= i < v.len() && v[i] <= limit)
}

proof fn lemma_places_count(v: Seq<i64>, limit: int)
    ensures
        places_up_to(v, limit).finite(),
        places_up_to(v, limit).len() == count_up_to(v, limit),
    decreases v.len(),
{
    let all = places_up_to(v, limit);
    if v.len() == 0 {
        assert(all =~= Set::<int>::empty());
    } else {
        let n = v.len() - 1;
        let front = places_up_to(v.drop_last(), limit);
        lemma_places_count(v.drop_last(), limit);
        if v.last() <= limit {
            assert(all =~= front.insert(n));
        } else {
            assert(all =~= front);
        }
    }
}

/// More than 99.9 percent of the jumps do not exceed the typical peak.
pub proof fn law_typical_peak_is_rarely_exceeded(samples: Seq<i64>)
    requires
        2 <= samples.len() <= usize::MAX,
        samples_fit(samples),
    ensures
        1000 * count_up_to(jumps(samples), typical_peak(samples) as int) > 999 * jumps(
            samples,
        ).len(),
{
    let js = jumps(samples);
    let n = js.len() as int;
    let at = n * 999 / 1000;
    lemma_an_order_exists(js);
    let order = order_of(js);
    let peak = typical_peak(samples) as int;
    let first = order.take(at + 1);
    let places = first.map_values(|k: usize| k as int);
    assert forall|i: int, j: int| 0 <= i < places.len() && 0 <= j < places.len() && i != j implies
        places[i] != places[j] by {
        if i < j {
            assert(before(js, order[i] as int, order[j] as int));
        } else {
            assert(before(js, order[j] as int, order[i] as int));
        }
    }
    places.unique_seq_to_set();
    lemma_places_count(js, peak);
    assert forall|p: int| places.to_set().contains(p) implies places_up_to(js, peak).contains(
        p,
    ) by {
        let i = choose|i: int| 0 <= i < places.len() && places[i] == p;
        assert(order[i] as int == p);
        if i < at {
            assert(before(js, order[i] as int, order[at] as int));
        }
    }
    vstd::set_lib::lemma_len_subset(places.to_set(), places_up_to(js, peak));
}

/// The sample at which a segment starts.
pub open spec fn splice_index(s: PlanSegment, rate: int) -> int {
    s.out_start * rate / 1_000_000
}

/// There is a sample on either side of the splice.
pub open spec fn splice_heard(s: PlanSegment, rate: int, n: int) -> bool {
    0 < splice_index(s, rate) < n
}

/// The largest jump at a splice. The first segment begins the programme and is
/// none.
pub open spec fn worst_jump(segs: Seq<PlanSegment>, samples: Seq<i64>, rate: int) -> int
    decreases segs.len(),
{
    if segs.len() <= 1 {
        0
    } else {
        let w = worst_jump(segs.drop_last(), samples, rate);
        let s = segs.last();
        if splice_heard(s, rate, samples.len() as int) && jump_at(samples, splice_index(s, rate))
            > w {
            jump_at(samples, splice_index(s, rate))
        } else {
            w
        }
    }
}

/// How many splices jump by more than `limit`.
pub open spec fn loud_splices(
    segs: Seq<PlanSegment>,
    samples: Seq<i64>,
    rate: int,
    limit: int,
) -> nat
    decreases segs.len(),
{
    if segs.len() <= 1 {
        0
    } else {
        let n = loud_splices(segs.drop_last(), samples, rate, limit);
        let s = segs.last();
        if splice_heard(s, rate, samples.len() as int) && jump_at(samples, splice_index(s, rate))
            > limit {
            n + 1
        } else {
            n
        }
    }
}

fn jump(samples: &Vec<i64>, i: usize) -> (d: i64)
    requires
        0 < i < samples@.len(),
        samples_fit(samples@),
    ensures
        d == jump_at(samples@, i as int),
        0 <= d <= 2 * TIME_MAX,
{
    assert(-TIME_MAX <= samples@[i as int] <= TIME_MAX);
    assert(-TIME_MAX <= samples@[i - 1] <= TIME_MAX);
    let (a, b): (i64, i64) = (samples[i], samples[i - 1]);
    if a < b {
        b - a
    } else {
        a - b
    }
}

/// The jump from sample to sample at each splice, against the recording's own
/// jumps: how many splices exceed the typical peak, the worst jump at a splice,
/// and the typical peak.
pub fn click_stats(samples: &Vec<i64>, sample_rate: u32, plan: &Plan) -> (r: (usize, i64, i64))
    requires
        samples@.len() >= 2,
        samples_fit(samples@),
    ensures
        r.2 == typical_peak(samples@),
        r.1 == worst_jump(plan.segments@, samples@, sample_rate as int),
        r.0 == loud_splices(plan.segments@, samples@, sample_rate as int, r.2 as int),
{
    let n: usize = samples.len();
    let mut diffs: Vec<i64> = Vec::new();
    let ghost js = jumps(samples@);
    let mut i: usize = 1;
    while i < n
        invariant
            1 <= i <= n,
            n == samples@.len(),
            samples_fit(samples@),
            js == jumps(samples@),
            diffs@ == js.take(i - 1),
        decreases n - i,
    {
        diffs.push(jump(samples, i));
        assert(diffs@ =~= js.take(i as int));
        i += 1;
    }
    assert(diffs@ =~= js);
    let order = stable_order(&diffs);
    let m: usize = diffs.len();
    let at: usize = (m as u128 * 999 / 1000) as usize;
    assert(order@.len() == m);
    assert(0 <= order@[at as int] < m);
    let peak: i64 = diffs[order[at]];
    let mut worst: i64 = 0;
    let mut failures: usize = 0;
    let ghost rate = sample_rate as int;
    let ghost segs = plan.segments@;
    let count: usize = plan.segments.len();
    let mut k: usize = 1;
    assert(segs.len() > 0 ==> segs.take(1).len() == 1);
    while k < count
        invariant
            1 <= k,
            n == samples@.len(),
            samples_fit(samples@),
            segs == plan.segments@,
            count == segs.len(),
            k <= count || k == 1,
            rate == sample_rate,
            0 <= worst,
            failures <= k,
            worst == worst_jump(segs.take(if k <= count { k as int } else { 0 }), samples@, rate),
            failures == loud_splices(
                segs.take(if k <= count { k as int } else { 0 }),
                samples@,
                rate,
                peak as int,
            ),
        decreases count - k,
    {
        assert(segs.take(k + 1).drop_last() =~= segs.take(k as int));
        let ghost (gs, gr) = (plan.segments@[k as int].out_start as int, rate);
        assert(-0x8000_0000_0000_0000 * 0xffff_ffff <= gs * gr <= 0x7fff_ffff_ffff_ffff
            * 0xffff_ffff) by (nonlinear_arith)
            requires
                -0x8000_0000_0000_0000 <= gs <= 0x7fff_ffff_ffff_ffff,
                0 <= gr <= 0xffff_ffff,
        ;
        let start: i128 = plan.segments[k].out_start as i128 * sample_rate as i128;
        if start >= 1_000_000 && start / 1_000_000 < n as i128 {
            let idx: usize = (start / 1_000_000) as usize;
            let j: i64 = jump(samples, idx);
            if j > worst {
                worst = j;
            }
            if j > peak {
                failures += 1;
            }
        }
        k += 1;
    }
    assert(segs.take(if k <= count { k as int } else { 0 }) =~= segs);
    (failures, worst, peak)
}

/// An amplitude to four places.
pub open spec fn amplitude(v: int) -> Seq<char> {
    sign(v) + fixed_magnitude(v, 9, 4)
}

pub open spec fn clicks_check(
    segs: Seq<PlanSegment>,
    samples: Seq<i64>,
    rate: int,
    pre: Option<(Seq<i64>, int)>,
) -> CheckView {
    let peak = typical_peak(samples) as int;
    let failures = loud_splices(segs, samples, rate, peak);
    let splices = if segs.len() == 0 {
        0
    } else {
        (segs.len() - 1) as nat
    };
    let detail = decimal(failures) + " / "@ + decimal(splices) + " (worst "@ + amplitude(
        worst_jump(segs, samples, rate),
    ) + " vs p99.9 "@ + amplitude(peak);
    CheckView {
        name: "splice clicks"@,
        passed: failures == 0,
        detail: match pre {
            Some((ps, pr)) => detail + "; pre-limiter worst "@ + amplitude(
                worst_jump(segs, ps, pr),
            ) + ")"@,
            None => detail + ")"@,
        },
    }
}

/// Whether a splice can be heard. `pre` is the programme before the limiter,
/// which smooths transients and so makes this easier to pass: its worst jump is
/// reported alongside.
pub fn check_clicks(
    samples: &Vec<i64>,
    sample_rate: u32,
    plan: &Plan,
    pre: Option<(&Vec<i64>, u32)>,
) -> (c: Check)
    requires
        samples@.len() >= 2,
        samples_fit(samples@),
        pre matches Some(p) ==> p.0@.len() >= 2 && samples_fit(p.0@),
    ensures
        c@ == clicks_check(
            plan.segments@,
            samples@,
            sample_rate as int,
            match pre {
                Some(p) => Some((p.0@, p.1 as int)),
                None => None,
            },
        ),
{
    let (failures, worst, peak): (usize, i64, i64) = click_stats(samples, sample_rate, plan);
    let splices: usize = if plan.segments.len() == 0 {
        0
    } else {
        plan.segments.len() - 1
    };
    let mut detail = show_count(failures);
    detail.append(" / ");
    detail.append(show_count(splices).as_str());
    detail.append(" (worst ");
    detail.append(show_fixed_nano(worst, 4).as_str());
    detail.append(" vs p99.9 ");
    detail.append(show_fixed_nano(peak, 4).as_str());
    match pre {
        Some((ps, pr)) => {
            let (_, pre_worst, _): (usize, i64, i64) = click_stats(ps, pr, plan);
            detail.append("; pre-limiter worst ");
            detail.append(show_fixed_nano(pre_worst, 4).as_str());
        },
        None => {},
    }
    detail.append(")");
    let c = Check { name: "splice clicks", passed: failures == 0, detail };
    assert(c@ =~= clicks_check(
        plan.segments@,
        samples@,
        sample_rate as int,
        match pre {
            Some(p) => Some((p.0@, p.1 as int)),
            None => None,
        },
    ));
    c
}

// ---------------------------------------------------------------------------
// All of them
// ---------------------------------------------------------------------------
/// What was measured on the finished file.
#[derive(Debug)]
pub struct Measured {
    pub duration_us: i64,
    pub bytes: Vec<u8>,
    pub lufs: i64,
    pub true_peak: i64,
    pub samples: Vec<i64>,
    pub sample_rate: u32,
    /// The programme before the limiter, where it was kept.
    pub pre: Option<(Vec<i64>, u32)>,
    /// How alike the frames at the placed checkpoints were.
    pub scores: Vec<i64>,
    /// How many checkpoints could not be placed.
    pub skipped: usize,
}

impl Measured {
    pub open spec fn wf(&self) -> bool {
        &&& self.samples@.len() >= 2 && samples_fit(self.samples@)
        &&& self.pre matches Some(p) ==> p.0@.len() >= 2 && samples_fit(p.0@)
    }
}

pub open spec fn check_views(checks: Seq<Check>) -> Seq<CheckView> {
    Seq::new(checks.len(), |k: int| checks[k]@)
}

/// The checks, in the order in which they are reported.
pub open spec fn all_checks(m: Measured, plan: Plan, target_lufs: int) -> Seq<CheckView> {
    seq![
        duration_check(m.duration_us as int, plan.out_duration_us as int),
        faststart_check(m.bytes@),
        loudness_check(m.lufs as int, m.true_peak as int, target_lufs),
        clicks_check(
            plan.segments@,
            m.samples@,
            m.sample_rate as int,
            match m.pre {
                Some(p) => Some((p.0@, p.1 as int)),
                None => None,
            },
        ),
        sync_check(m.scores@, m.skipped as nat),
    ]
}

/// Every check on the finished file.
pub fn verify(m: &Measured, plan: &Plan, target_lufs: i64) -> (checks: Vec<Check>)
    requires
        m.wf(),
    ensures
        check_views(checks@) == all_checks(*m, *plan, target_lufs as int),
{
    let mut checks: Vec<Check> = Vec::new();
    checks.push(check_duration(m.duration_us, plan));
    checks.push(check_faststart(m.bytes.as_slice()));
    checks.push(check_loudness(m.lufs, m.true_peak, target_lufs));
    let pre = match &m.pre {
        Some(p) => Some((&p.0, p.1)),
        None => None,
    };
    checks.push(check_clicks(&m.samples, m.sample_rate, plan, pre));
    checks.push(check_sync(&m.scores, m.skipped));
    assert(check_views(checks@) =~= all_checks(*m, *plan, target_lufs as int));
    checks
}

/// Whether the export may stand.
pub fn all_passed(checks: &Vec<Check>) -> (b: bool)
    ensures
        b == forall|k: int| 0 <= k < checks@.len() ==> (#[trigger] checks@[k]).passed,
{
    let mut k: usize = 0;
    while k < checks.len()
        invariant
            k <= checks@.len(),
            forall|j: int| 0 <= j < k ==> (#[trigger] checks@[j]).passed,
        decreases checks@.len() - k,
    {
        if !checks[k].passed {
            return false;
        }
        k += 1;
    }
    true
}

/// `s` with spaces behind it, up to `w` characters.
pub open spec fn padded_name(s: Seq<char>, w: nat) -> Seq<char> {
    if s.len() < w {
        s + Seq::new((w - s.len()) as nat, |k: int| ' ')
    } else {
        s
    }
}

/// The line that reports a check.
pub open spec fn check_line(c: CheckView) -> Seq<char> {
    "  "@ + padded_name(c.name, 16) + (if c.passed {
        " PASS  "@
    } else {
        " FAIL  "@
    }) + c.detail
}

/// Reports a check.
pub fn report_line(c: &Check) -> (r: String)
    ensures
        r@ == check_line(c@),
{
    let mut r = "  ".to_string();
    r.append(c.name);
    let n: usize = c.name.unicode_len();
    let ghost start = r@;
    let mut k: usize = n;
    while k < 16
        invariant
            n == c.name@.len(),
            n <= k,
            n < 16 ==> k <= 16,
            n >= 16 ==> k == n,
            r@ == start + Seq::new((k - n) as nat, |j: int| ' '),
        decreases 16 - k,
    {
        let ghost before = r@;
        r.push(' ');
        assert(r@ =~= start + Seq::new((k + 1 - n) as nat, |j: int| ' '));
        k += 1;
    }
    assert(r@ =~= "  "@ + padded_name(c.name@, 16));
    r.append(
        if c.passed {
            " PASS  "
        } else {
            " FAIL  "
        },
    );
    r.append(c.detail.as_str());
    assert(r@ =~= check_line(c@));
    r
}

// ---------------------------------------------------------------------------
// Laws
// ---------------------------------------------------------------------------
/// The file passes on its length exactly when it is within half a second of
/// the plan.
pub proof fn law_duration_may_be_half_a_second_off(measured: int, planned: int)
    requires
        -1_000_000_000_000_000_000 <= measured <= 1_000_000_000_000_000_000,
        -1_000_000_000_000_000_000 <= planned <= 1_000_000_000_000_000_000,
    ensures
        duration_check(measured, planned).passed <==> measured - planned <= 500_000 && planned
            - measured <= 500_000,
{
}

/// The file passes on its loudness exactly when that is within 0.2 of the
/// target and the true peak is no higher than -1.2. A measurement that gave no
/// number, or silence, fails.
pub proof fn law_loudness_may_be_a_fifth_off(lufs: int, true_peak: int, target: int)
    requires
        -1_000_000_000_000_000_000 <= target <= 1_000_000_000_000_000_000,
        i64::MIN <= lufs <= i64::MAX,
        i64::MIN <= true_peak <= i64::MAX,
    ensures
        loudness_check(lufs, true_peak, target).passed <==> lufs - target <= 200_000 && target
            - lufs <= 200_000 && i64::MIN < true_peak <= -1_200_000,
{
}

proof fn lemma_first_tag(bytes: Seq<u8>, tag: Seq<u8>, from: int)
    requires
        0 <= from,
    ensures
        match first_tag(bytes, tag, from) {
            Some(i) => from <= i && tag_at(bytes, tag, i) && forall|j: int|
                from <= j < i ==> !#[trigger] tag_at(bytes, tag, j),
            None => forall|j: int| from <= j ==> !#[trigger] tag_at(bytes, tag, j),
        },
    decreases bytes.len() + 1 - from,
{
    if from <= bytes.len() && !tag_at(bytes, tag, from) {
        lemma_first_tag(bytes, tag, from + 1);
    }
}

/// The bytes of `moov`.
pub open spec fn index_tag() -> Seq<u8> {
    seq![0x6du8, 0x6fu8, 0x6fu8, 0x76u8]
}

/// The bytes of `mdat`.
pub open spec fn data_tag() -> Seq<u8> {
    seq![0x6du8, 0x64u8, 0x61u8, 0x74u8]
}

/// `moov` stands somewhere in the bytes, and no `mdat` before it.
pub open spec fn index_stands_first(head: Seq<u8>) -> bool {
    exists|i: int| #[trigger] tag_at(head, index_tag(), i) && no_data_before(head, i)
}

/// No `mdat` stands before that place.
pub open spec fn no_data_before(head: Seq<u8>, i: int) -> bool {
    forall|j: int| 0 <= j < i ==> !#[trigger] tag_at(head, data_tag(), j)
}

/// A file starts fast exactly when `moov` stands somewhere in its first 65536
/// bytes with no `mdat` before it.
pub proof fn law_the_index_stands_before_the_data(bytes: Seq<u8>, n: int)
    requires
        0 <= n <= 65536,
        n <= bytes.len(),
        n == 65536 || n == bytes.len(),
    ensures
        faststart_check(bytes).passed <==> index_stands_first(bytes.take(n)),
{
    let head = bytes.take(n);
    assert(head =~= head_of(bytes));
    let (moov, mdat) = (index_tag(), data_tag());
    assert(moov =~= seq![109u8, 111u8, 111u8, 118u8]);
    assert(mdat =~= seq![109u8, 100u8, 97u8, 116u8]);
    lemma_first_tag(head, moov, 0);
    lemma_first_tag(head, mdat, 0);
    assert(moov[1] != mdat[1]);
    if faststart_check(bytes).passed {
        let m = first_tag(head, moov, 0).unwrap();
        assert(tag_at(head, moov, m));
        assert(no_data_before(head, m));
    }
    if index_stands_first(head) {
        let i = choose|i: int| #[trigger] tag_at(head, moov, i) && no_data_before(head, i);
        assert(tag_at(head, moov, i));
        if first_tag(head, mdat, 0) is Some {
            let d = first_tag(head, mdat, 0).unwrap();
            assert(tag_at(head, mdat, d));
            if d == i {
                assert(moov == mdat);
            }
        }
    }
}

/// The picture is in step exactly when something was compared and no score is
/// under 0.9; one that is no number is passed over.
pub proof fn law_in_step_is_nine_tenths(scores: Seq<i64>, skipped: nat)
    ensures
        sync_check(scores, skipped).passed <==> scores.len() > 0 && forall|k: int|
            0 <= k < scores.len() ==> #[trigger] scores[k] >= 900_000 || scores[k] == i64::MIN,
{
    law_sync_needs_every_score(scores, skipped);
    if forall|k: int|
        0 <= k < scores.len() ==> #[trigger] scores[k] >= 900_000 || scores[k] == i64::MIN {
        assert forall|k: int| 0 <= k < scores.len() implies alike(#[trigger] scores[k]) by {}
    }
    if forall|k: int| 0 <= k < scores.len() ==> alike(#[trigger] scores[k]) {
        assert forall|k: int| 0 <= k < scores.len() implies #[trigger] scores[k] >= 900_000
            || scores[k] == i64::MIN by {
            assert(alike(scores[k]));
        }
    }
}

/// The moments compared are the seven that divide the output into eight.
pub proof fn law_checkpoints_divide_the_output_by_eight(out_duration: int, k: int)
    requires
        0 <= out_duration,
        0 <= k <= 8,
    ensures
        8 * checkpoint_time(out_duration, k) <= out_duration * k < 8 * checkpoint_time(
            out_duration,
            k,
        ) + 8,
{
    crate::plan::lemma_quotient(out_duration * k, 8, checkpoint_time(out_duration, k));
}

/// The typical peak is one of the jumps, and no more than 99.9 percent of the
/// jumps are under it.
pub proof fn law_typical_peak_is_a_jump(samples: Seq<i64>)
    requires
        2 <= samples.len() <= usize::MAX,
        samples_fit(samples),
    ensures
        jumps(samples).contains(typical_peak(samples)),
        1000 * count_up_to(jumps(samples), typical_peak(samples) - 1) <= 999 * jumps(
            samples,
        ).len(),
{
    let js = jumps(samples);
    let n = js.len() as int;
    let at = n * 999 / 1000;
    lemma_an_order_exists(js);
    let order = order_of(js);
    let peak = typical_peak(samples) as int;
    assert(0 <= at < n);
    assert(js[order[at] as int] == peak);
    let first = order.take(at);
    let places = first.map_values(|k: usize| k as int);
    assert(places.no_duplicates()) by {
        assert forall|i: int, j: int|
            0 <= i < places.len() && 0 <= j < places.len() && i != j implies places[i]
            != places[j] by {
            if i < j {
                assert(before(js, order[i] as int, order[j] as int));
            } else {
                assert(before(js, order[j] as int, order[i] as int));
            }
        }
    }
    places.unique_seq_to_set();
    lemma_places_count(js, peak - 1);
    let low = places_up_to(js, peak - 1);
    assert forall|p: int| low.contains(p) implies places.to_set().contains(p) by {
        assert(order.contains(p as usize));
        let i = choose|i: int| 0 <= i < order.len() && order[i] == p as usize;
        if i == at {
            assert(js[p] == peak);
        } else if i > at {
            assert(before(js, order[at] as int, order[i] as int));
        }
        assert(i < at);
        assert(first[i] == p as usize);
        assert(places[i] == p);
    }
    vstd::set_lib::lemma_len_subset(low, places.to_set());
}

/// The sample into which the `k`-th segment starts has one before it.
pub open spec fn is_splice(segs: Seq<PlanSegment>, rate: int, n: int, k: int, i: int) -> bool {
    &&& 1 <= k < segs.len()
    &&& 0 < i < n
    &&& 1_000_000 * i <= segs[k].out_start * rate < 1_000_000 * i + 1_000_000
}

/// How far apart two neighbouring samples are.
pub open spec fn step_into(samples: Seq<i64>, i: int) -> int {
    if samples[i] >= samples[i - 1] {
        samples[i] - samples[i - 1]
    } else {
        samples[i - 1] - samples[i]
    }
}

/// The worst jump at a splice is as large as any of them, and no larger than
/// the largest; the start of the programme is no splice.
pub proof fn law_the_worst_jump_is_the_largest(
    segs: Seq<PlanSegment>,
    samples: Seq<i64>,
    rate: int,
)
    ensures
        worst_jump(segs, samples, rate) >= 0,
        forall|k: int, i: int| #[trigger]
            is_splice(segs, rate, samples.len() as int, k, i) ==> worst_jump(segs, samples, rate)
                >= step_into(samples, i),
        worst_jump(segs, samples, rate) == 0 || exists|k: int, i: int| #[trigger]
            is_splice(segs, rate, samples.len() as int, k, i) && worst_jump(segs, samples, rate)
                == step_into(samples, i),
    decreases segs.len(),
{
    let n = samples.len() as int;
    let w = worst_jump(segs, samples, rate);
    if segs.len() > 1 {
        let front = segs.drop_last();
        let last = segs.len() - 1;
        law_the_worst_jump_is_the_largest(front, samples, rate);
        let v = worst_jump(front, samples, rate);
        assert forall|k: int, i: int| #[trigger] is_splice(segs, rate, n, k, i) implies w
            >= step_into(samples, i) by {
            if k < last {
                assert(front[k] == segs[k]);
                assert(is_splice(front, rate, n, k, i));
            } else {
                assert(i == splice_index(segs[last], rate));
            }
        }
        if w == v {
            if v != 0 {
                let (k, i) = choose|k: int, i: int| #[trigger]
                    is_splice(front, rate, n, k, i) && v == step_into(samples, i);
                assert(front[k] == segs[k]);
                assert(is_splice(segs, rate, n, k, i));
            }
        } else {
            let i = splice_index(segs[last], rate);
            assert(is_splice(segs, rate, n, last, i));
        }
    }
}

proof fn lemma_loud_splices(segs: Seq<PlanSegment>, samples: Seq<i64>, rate: int, limit: int)
    ensures
        loud_splices(segs, samples, rate, limit) == 0 <==> forall|k: int, i: int| #[trigger]
            is_splice(segs, rate, samples.len() as int, k, i) ==> step_into(samples, i) <= limit,
    decreases segs.len(),
{
    let n = samples.len() as int;
    if segs.len() > 1 {
        let front = segs.drop_last();
        let last = segs.len() - 1;
        lemma_loud_splices(front, samples, rate, limit);
        let x = splice_index(segs[last], rate);
        if loud_splices(segs, samples, rate, limit) == 0 {
            assert forall|k: int, i: int| #[trigger] is_splice(segs, rate, n, k, i) implies step_into(
                samples,
                i,
            ) <= limit by {
                if k < last {
                    assert(front[k] == segs[k]);
                    assert(is_splice(front, rate, n, k, i));
                } else {
                    assert(i == x);
                }
            }
        }
        if forall|k: int, i: int| #[trigger]
            is_splice(segs, rate, n, k, i) ==> step_into(samples, i) <= limit {
            assert forall|k: int, i: int| #[trigger] is_splice(front, rate, n, k, i) implies step_into(
                samples,
                i,
            ) <= limit by {
                assert(front[k] == segs[k]);
                assert(is_splice(segs, rate, n, k, i));
            }
            if 0 < x < n {
                assert(is_splice(segs, rate, n, last, x));
            }
        }
    }
}

/// The splices pass exactly when none of them jumps by more than the typical
/// peak of the recording itself.
pub proof fn law_no_splice_may_exceed_the_typical_peak(
    segs: Seq<PlanSegment>,
    samples: Seq<i64>,
    rate: int,
    pre: Option<(Seq<i64>, int)>,
)
    ensures
        clicks_check(segs, samples, rate, pre).passed <==> forall|k: int, i: int| #[trigger]
            is_splice(segs, rate, samples.len() as int, k, i) ==> step_into(samples, i)
                <= typical_peak(samples),
{
    lemma_loud_splices(segs, samples, rate, typical_peak(samples) as int);
}

/// Five things are measured, each of which can fail the file.
pub proof fn law_five_checks_are_made(m: Measured, plan: Plan, target_lufs: int)
    ensures
        ({
            let all = all_checks(m, plan, target_lufs);
            &&& all.len() == 5
            &&& all[0].name == "duration"@
            &&& all[1].name == "faststart"@
            &&& all[2].name == "loudness"@
            &&& all[3].name == "splice clicks"@
            &&& all[4].name == "a/v sync"@
        }),
{
}

/// A line shows the name in sixteen columns, whether the check passed, and the
/// detail.
pub proof fn law_a_line_says_whether_its_check_passed(c: CheckView)
    requires
        c.name.len() <= 16,
    ensures
        check_line(c).subrange(2, 2 + c.name.len() as int) == c.name,
        forall|k: int| 2 + c.name.len() <= k < 18 ==> #[trigger] check_line(c)[k] == ' ',
        check_line(c).subrange(19, 23) == (if c.passed {
            seq!['P', 'A', 'S', 'S']
        } else {
            seq!['F', 'A', 'I', 'L']
        }),
        check_line(c).skip(25) == c.detail,
{
    reveal_strlit("  ");
    reveal_strlit(" PASS  ");
    reveal_strlit(" FAIL  ");
    let l = check_line(c);
    assert(l.subrange(2, 2 + c.name.len() as int) =~= c.name);
    assert(l.skip(25) =~= c.detail);
}

} // verus!
