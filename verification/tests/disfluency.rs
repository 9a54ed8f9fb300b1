use elide::captions::Word;
use elide::disfluency::{
    apply_cuts, check_candidates, find_cuts, inside_1x, norm, propose, Align, Candidate, Cut,
    Kind, Rejected, Splice, Why,
};
use elide::plan::{Segment, Speed};
use elide::quiet::{quiet_before_us, quiet_run_us, snap_in, speech_end_before};
use elide::report::{tally, why_counts};

const QUIET: i64 = -80_000_000;
const LOUD: i64 = -20_000_000;
const SECOND: i64 = 1_000_000;

fn word(text: &str, start: i64, end: i64) -> Word {
    Word {
        text: text.to_string(),
        start,
        end,
        prob: 1_000_000,
    }
}

fn seg(src_start: i64, src_end: i64, num: i64) -> Segment {
    Segment {
        src_start,
        src_end,
        speed: Speed { num, den: 1 },
    }
}

/// Energy frames of 10 ms, loud where a span of seconds/10 says so.
fn energy(frames: usize, loud: &[(usize, usize)]) -> Vec<i64> {
    let mut e = vec![QUIET; frames];
    for &(a, b) in loud {
        for v in e.iter_mut().take(b).skip(a) {
            *v = LOUD;
        }
    }
    e
}

fn cut(start: i64, end: i64, kind: Kind) -> Cut {
    Cut {
        start,
        end,
        kind,
        text: "x".to_string(),
        sim: 1_000_000,
        takes: 1,
        align: Align::Span,
    }
}

// ---- words ------------------------------------------------------------------

#[test]
fn norm_lowers_and_strips_punctuation() {
    assert_eq!(norm("  \"Hello,\" "), "hello");
    assert_eq!(norm("don't"), "don't");
    assert_eq!(norm("..."), "");
    assert_eq!(norm("(ÉTÉ)"), "été");
}

// ---- the quiet --------------------------------------------------------------

#[test]
fn snapping_finds_the_quietest_frame() {
    let mut e = vec![LOUD; 200];
    e[120] = QUIET;
    e[121] = QUIET;
    assert_eq!(snap_in(SECOND, &e), (1_200_000, QUIET));
    // out of reach: 0.35 s either way, so the first of the equal frames stands
    e = vec![LOUD; 200];
    e[150] = QUIET;
    assert_eq!(snap_in(SECOND, &e), (650_000, LOUD));
    // past the end there is nothing to snap to
    assert_eq!(snap_in(50 * SECOND, &e), (50 * SECOND, 0));
}

#[test]
fn a_quiet_run_is_measured_both_ways() {
    let e = energy(200, &[(0, 50), (70, 200)]);
    assert_eq!(quiet_run_us(600_000, &e), 200_000);
    assert_eq!(quiet_run_us(400_000, &e), 0);
    assert_eq!(quiet_run_us(9 * SECOND, &e), 0);
}

#[test]
fn the_pause_before_a_word_is_read_from_the_audio() {
    let e = energy(200, &[(0, 50)]);
    assert_eq!(speech_end_before(800_000, &e), 500_000);
    assert_eq!(quiet_before_us(800_000, &e), 300_000);
    assert_eq!(quiet_before_us(400_000, &e), 0);
}

// ---- proposals --------------------------------------------------------------

#[test]
fn stutters_keep_the_last_word() {
    let words = vec![
        word("I", 0, 200_000),
        word("I", 300_000, 500_000),
        word("i,", 600_000, 800_000),
        word("see", 900_000, 1_200_000),
    ];
    let c = propose(&words, &energy(400, &[(0, 400)]));
    assert_eq!(c.len(), 1);
    assert_eq!(c[0].kind, Kind::Stutter);
    assert_eq!(c[0].takes, 3);
    assert_eq!(c[0].opts.len(), 2);
    assert_eq!(
        (c[0].opts[0].start, c[0].opts[0].end, c[0].opts[0].align),
        (0, 600_000, Align::KeepLast)
    );
    assert_eq!(
        (c[0].opts[1].start, c[0].opts[1].end, c[0].opts[1].align),
        (200_000, 800_000, Align::KeepLastAlt)
    );
}

#[test]
fn words_far_apart_do_not_stutter() {
    let words = vec![word("I", 0, 200_000), word("I", 1_100_000, 1_300_000)];
    assert!(propose(&words, &energy(400, &[(0, 400)])).is_empty());
}

fn sentence(at: i64, texts: &[&str]) -> Vec<Word> {
    texts
        .iter()
        .enumerate()
        .map(|(k, t)| word(t, at + k as i64 * 300_000, at + k as i64 * 300_000 + 200_000))
        .collect()
}

#[test]
fn repeats_keep_the_last_of_all_takes() {
    let mut words = sentence(0, &["we", "have", "added", "images"]);
    words.extend(sentence(2 * SECOND, &["we", "have", "added", "images"]));
    words.extend(sentence(4 * SECOND, &["we", "have", "added", "images", "today"]));
    let c = propose(&words, &energy(1000, &[(0, 1000)]));
    assert_eq!(c.len(), 1);
    assert_eq!(c[0].kind, Kind::Repeat);
    assert_eq!(c[0].takes, 3);
    assert_eq!(c[0].text, "we have added images");
    assert_eq!((c[0].opts[0].start, c[0].opts[0].end), (0, 4 * SECOND));
    assert_eq!(
        (c[0].opts[1].start, c[0].opts[1].end),
        (1_100_000, 5_100_000)
    );
    assert_eq!((c[0].opts[2].start, c[0].opts[2].end), (0, 2 * SECOND));
    assert_eq!(
        (c[0].opts[3].start, c[0].opts[3].end),
        (1_100_000, 3_100_000)
    );
}

#[test]
fn three_words_or_a_long_gap_are_no_repeat() {
    let mut short = sentence(0, &["we", "have", "added"]);
    short.extend(sentence(2 * SECOND, &["we", "have", "added"]));
    assert!(propose(&short, &energy(1000, &[(0, 1000)])).is_empty());

    let mut far = sentence(0, &["we", "have", "added", "images"]);
    far.extend(sentence(5 * SECOND, &["we", "have", "added", "images"]));
    assert!(propose(&far, &energy(1000, &[(0, 1000)])).is_empty());
}

#[test]
fn fillers_need_a_pause_before_them() {
    let words = vec![
        word("done.", 0, 500_000),
        word("So", 1_000_000, 1_200_000),
        word("we", 2_000_000, 2_200_000),
    ];
    let quiet = energy(400, &[(0, 50), (100, 120), (200, 220)]);
    let c = propose(&words, &quiet);
    assert_eq!(c.len(), 1);
    assert_eq!((c[0].kind, c[0].text.as_str()), (Kind::Filler, "So"));
    // from 0.06 s before the word, to the word's end and 0.60 s of pause
    assert_eq!((c[0].opts[0].start, c[0].opts[0].end), (940_000, 1_800_000));

    let tight = energy(400, &[(0, 90), (100, 120), (200, 220)]);
    assert!(propose(&words, &tight).is_empty());
}

#[test]
fn the_first_and_last_word_are_no_fillers() {
    let words = vec![word("so", SECOND, 1_200_000), word("and", 3 * SECOND, 3_200_000)];
    assert!(propose(&words, &energy(400, &[])).is_empty());
}

// ---- the guards -------------------------------------------------------------

fn candidate(kind: Kind, spans: &[(i64, i64, Align)]) -> Candidate {
    Candidate {
        opts: spans
            .iter()
            .map(|&(start, end, align)| Splice { start, end, align })
            .collect(),
        kind,
        text: "x".to_string(),
        takes: 2,
        first_take: (0, 0),
        last_take: (0, 0),
    }
}

fn reasons(r: &[Rejected]) -> Vec<String> {
    r.iter().map(|x| x.why.text()).collect()
}

#[test]
fn a_safe_cut_is_accepted() {
    let e = energy(1000, &[(120, 280)]);
    let segs = vec![seg(0, 10 * SECOND, 1)];
    let c = vec![candidate(Kind::Filler, &[(SECOND, 3 * SECOND, Align::Span)])];
    let (ok, no, clipped) = check_candidates(&c, &vec![1_000_000], &e, &segs);
    assert_eq!(ok.len(), 1);
    assert!(no.is_empty());
    assert_eq!(clipped, 0);
    // both ends moved to the first quietest frame in reach
    assert_eq!((ok[0].start, ok[0].end), (650_000, 2_800_000));
}

#[test]
fn every_guard_says_why() {
    let e = energy(1000, &[(120, 280), (400, 600)]);
    let segs = vec![seg(0, 4 * SECOND, 1), seg(4 * SECOND, 10 * SECOND, 8)];
    let run = |c: Candidate, sim: i64| {
        let (ok, no, clipped) = check_candidates(&vec![c], &vec![sim], &e, &segs);
        assert!(ok.is_empty());
        (reasons(&no)[0].clone(), clipped)
    };
    let span = |a, b| candidate(Kind::Filler, &[(a, b, Align::Span)]);

    // takes that do not sound alike are rejected before anything is placed
    assert_eq!(
        run(candidate(Kind::Repeat, &[(SECOND, 3 * SECOND, Align::KeepLast)]), 540_000),
        ("similarity 0.54".to_string(), 0)
    );
    assert_eq!(run(span(SECOND, 1_010_000), 1_000_000).0, "duration 0.01s");
    assert_eq!(run(span(SECOND, 5 * SECOND), 1_000_000).0, "splice -20dB");
    // quiet at the splice, but not for long
    let mut spiky = vec![LOUD; 1000];
    spiky[100] = QUIET;
    spiky[300] = QUIET;
    let (_, no, _) = check_candidates(&vec![span(SECOND, 3 * SECOND)], &vec![1_000_000], &spiky, &segs);
    assert_eq!(reasons(&no), vec!["quiet run 0.01s/0.01s"]);
    // inside a speed-up
    assert_eq!(run(span(7 * SECOND, 9 * SECOND), 1_000_000).0, "not in a 1x segment");
    // nothing to try at all
    assert_eq!(run(candidate(Kind::Filler, &[(SECOND, SECOND, Align::Span)]), 0).0, "duration 0.00s");
    // a repeat that could not be placed is counted
    assert_eq!(
        run(candidate(Kind::Repeat, &[(SECOND, SECOND, Align::KeepLast)]), 1_000_000).1,
        1
    );
}

#[test]
fn cuts_keep_their_distance() {
    let e = energy(1000, &[]);
    let segs = vec![seg(0, 10 * SECOND, 1)];
    // all quiet: an end snaps to the start of its window
    let c = vec![
        candidate(Kind::Filler, &[(SECOND, 2 * SECOND, Align::Span)]),
        candidate(Kind::Filler, &[(2 * SECOND, 3 * SECOND, Align::Span)]),
        candidate(Kind::Filler, &[(2_100_000, 3 * SECOND, Align::Span)]),
    ];
    let (ok, no, _) = check_candidates(&c, &vec![1_000_000; 3], &e, &segs);
    assert_eq!(
        ok.iter().map(|c| (c.start, c.end)).collect::<Vec<_>>(),
        vec![(650_000, 1_650_000), (1_750_000, 2_650_000)]
    );
    assert_eq!(reasons(&no), vec!["overlap"]);
}

#[test]
fn a_later_alignment_is_tried() {
    let e = energy(1000, &[(0, 300), (360, 1000)]);
    let segs = vec![seg(0, 10 * SECOND, 1)];
    let quiet = energy(1000, &[(120, 280)]);
    let c = vec![candidate(
        Kind::Repeat,
        &[
            (SECOND, 20 * SECOND, Align::KeepLast),
            (SECOND, 3 * SECOND, Align::DropFirst),
        ],
    )];
    let (ok, _, _) = check_candidates(&c, &vec![550_000], &quiet, &segs);
    assert_eq!(ok[0].align, Align::DropFirst);
    let (ok, no, clipped) = check_candidates(&c, &vec![550_000], &e, &segs);
    assert!(ok.is_empty());
    assert_eq!((no.len(), clipped), (1, 1));
}

#[test]
fn find_cuts_asks_how_alike_the_takes_sound() {
    let mut words = sentence(0, &["we", "have", "added", "images"]);
    words.extend(sentence(2 * SECOND, &["we", "have", "added", "images"]));
    let e = energy(1000, &[]);
    let segs = vec![seg(0, 10 * SECOND, 1)];
    let (ok, _, _) = find_cuts(
        &words,
        |a, b, c, d| {
            assert_eq!((a, b, c, d), (0, 1_100_000, 2 * SECOND, 3_100_000));
            900_000
        },
        &e,
        &e,
        &segs,
    );
    assert_eq!(ok.len(), 1);
    assert_eq!(ok[0].sim, 900_000);
    let (ok, no, _) = find_cuts(&words, |_, _, _, _| 0, &e, &e, &segs);
    assert!(ok.is_empty());
    assert_eq!(reasons(&no), vec!["similarity 0.00"]);
}

// ---- applying ---------------------------------------------------------------

#[test]
fn cuts_come_out_of_normal_segments_only() {
    let segs = vec![
        seg(0, 5 * SECOND, 1),
        seg(5 * SECOND, 9 * SECOND, 4),
        seg(9 * SECOND, 12 * SECOND, 1),
    ];
    let cuts = vec![
        cut(0, SECOND, Kind::Filler),
        cut(2 * SECOND, 3 * SECOND, Kind::Stutter),
        cut(6 * SECOND, 7 * SECOND, Kind::Repeat),
        cut(11 * SECOND, 12 * SECOND, Kind::Repeat),
    ];
    let out = apply_cuts(segs, &cuts);
    let spans: Vec<(i64, i64, i64)> = out
        .iter()
        .map(|s| (s.src_start, s.src_end, s.speed.num))
        .collect();
    assert_eq!(
        spans,
        vec![
            (SECOND, 2 * SECOND, 1),
            (3 * SECOND, 5 * SECOND, 1),
            (5 * SECOND, 9 * SECOND, 4),
            (9 * SECOND, 11 * SECOND, 1),
        ]
    );
}

#[test]
fn a_cut_across_segments_is_left_alone() {
    let segs = vec![seg(0, 5 * SECOND, 1), seg(6 * SECOND, 9 * SECOND, 1)];
    let cuts = vec![
        cut(4 * SECOND, 7 * SECOND, Kind::Repeat),
        cut(8 * SECOND, 9 * SECOND, Kind::Repeat),
    ];
    let spans: Vec<(i64, i64)> = apply_cuts(segs, &cuts)
        .iter()
        .map(|s| (s.src_start, s.src_end))
        .collect();
    assert_eq!(spans, vec![(0, 5 * SECOND), (6 * SECOND, 8 * SECOND)]);
}

#[test]
fn inside_means_wholly_inside_one_segment() {
    let segs = vec![seg(0, 5, 1), seg(5, 9, 4), seg(9, 12, 1)];
    assert!(inside_1x(&segs, 0, 5));
    assert!(!inside_1x(&segs, 4, 6));
    assert!(!inside_1x(&segs, 5, 9));
    assert!(inside_1x(&segs, 10, 11));
}

// ---- reporting --------------------------------------------------------------

#[test]
fn rejections_are_counted_by_their_first_word() {
    let r = |why| Rejected {
        start: 0,
        kind: Kind::Filler,
        why,
    };
    let rejected = vec![
        r(Why::Overlap),
        r(Why::Duration { us: 1 }),
        r(Why::Overlap),
        r(Why::NotNormal),
    ];
    assert_eq!(
        why_counts(&rejected),
        vec![
            ("overlap".to_string(), 2),
            ("duration".to_string(), 1),
            ("not".to_string(), 1)
        ]
    );
    assert_eq!(Why::NoAlignment.text(), "no alignment");
    assert_eq!(Why::NotNormal.key(), "not");
}

#[test]
fn a_tally_adds_up_one_kind() {
    let cuts = vec![
        cut(0, SECOND, Kind::Filler),
        cut(2 * SECOND, 2_500_000, Kind::Filler),
        cut(3 * SECOND, 9 * SECOND, Kind::Repeat),
    ];
    let rejected = vec![Rejected {
        start: 0,
        kind: Kind::Filler,
        why: Why::Overlap,
    }];
    let t = tally(&cuts, &rejected, Kind::Filler);
    assert_eq!((t.accepted, t.proposed, t.removed_us), (2, 3, 1_500_000));
    let t = tally(&cuts, &rejected, Kind::Stutter);
    assert_eq!((t.accepted, t.proposed, t.removed_us), (0, 0, 0));
    assert_eq!(Kind::Stutter.name(), "stutter");
    assert_eq!(Align::KeepLastAlt.name(), "keep-last-alt");
}
