use elide::ai::monitor::{
    monitor_speech, proposal, review, review_prompt, speech_diagnostic, speech_parameters,
    speech_score, Decision, Reply, Score,
};
use elide::calibrate::{calibrate_threshold, candidate_at, settle, Status, CANDIDATES};
use elide::captions::Word;
use elide::constants::{GATE_DB, VAD_ENTER, VAD_EXIT};
use elide::plan::{DeadAir, Pacing};
use elide::survey::{
    count_slices, dead_slices, energy_bands, grid_length, outlook, probability_bands, run_bands,
    Outlook,
};
use elide::vad::{
    bridge, drop_bursts, exit_threshold, hysteresis, longest_silences, pad, paint, speech_mask,
    us_to_slices,
};

fn mask(parts: &[(bool, usize)]) -> Vec<bool> {
    let mut m = Vec::new();
    for &(v, n) in parts {
        for _ in 0..n {
            m.push(v);
        }
    }
    m
}

fn word(text: &str, start: i64, end: i64) -> Word {
    Word {
        text: text.to_string(),
        start,
        end,
        prob: 1_000_000,
    }
}

fn decision(parameter: &str, direction: &str) -> Decision {
    Decision {
        ok: false,
        parameter: parameter.to_string(),
        direction: direction.to_string(),
        reason: "too much silence".to_string(),
    }
}

// ---- the speech mask --------------------------------------------------------

#[test]
fn hysteresis_holds_through_a_dip() {
    let probs = vec![100_000, 300_000, 200_000, 150_000, 149_999, 200_000, 300_000];
    assert_eq!(
        hysteresis(&probs, VAD_ENTER, VAD_EXIT),
        vec![false, true, true, true, false, false, true]
    );
}

#[test]
fn exit_threshold_has_a_floor() {
    assert_eq!(exit_threshold(300_000), 150_000);
    assert_eq!(exit_threshold(150_000), 10_000);
    assert_eq!(exit_threshold(160_001), 10_001);
}

#[test]
fn bridge_fills_short_inner_gaps_only() {
    // 17 slices are 0.34 s, 18 are 0.36 s
    let m = mask(&[(false, 5), (true, 10), (false, 17), (true, 10), (false, 18), (true, 3), (false, 4)]);
    let b = bridge(&m, 350_000);
    assert_eq!(
        b,
        mask(&[(false, 5), (true, 37), (false, 18), (true, 3), (false, 4)])
    );
}

#[test]
fn bursts_are_dropped_and_counted() {
    let m = mask(&[(true, 12), (false, 3), (true, 13), (false, 2), (true, 1)]);
    let (kept, n) = drop_bursts(&m, 250_000);
    assert_eq!(kept, mask(&[(false, 15), (true, 13), (false, 3)]));
    assert_eq!(n, 2);
}

#[test]
fn padding_stays_inside_the_grid() {
    let m = mask(&[(false, 10), (true, 1), (false, 100)]);
    // 0.50 s before is 25 slices, 0.55 s after is 27
    assert_eq!(pad(&m, 500_000, 550_000), mask(&[(true, 38), (false, 73)]));
}

#[test]
fn a_slice_takes_the_chunk_of_its_middle() {
    // slice 0 has its middle at sample 160, slice 1 at 480, slice 2 at 800
    let chunks = vec![true, false];
    assert_eq!(paint(&chunks, 5), vec![true, true, false, false, false]);
}

#[test]
fn lower_thresholds_mark_no_less() {
    let probs: Vec<i64> = (0..200).map(|k| (k * 7919 % 1000) * 600).collect();
    let high = speech_mask(&probs, 400_000, 250_000, 300);
    let low = speech_mask(&probs, 250_000, 100_000, 300);
    assert!(high.iter().zip(&low).all(|(h, l)| !h || *l));
    assert!(low.iter().any(|&b| b));
}

#[test]
fn longest_silences_come_first_and_ties_stay_in_order() {
    let m = mask(&[(false, 3), (true, 1), (false, 5), (true, 1), (false, 3), (true, 2)]);
    assert_eq!(longest_silences(&m, 2), vec![(4, 9), (0, 3)]);
    assert_eq!(longest_silences(&m, 10).len(), 3);
    assert!(longest_silences(&m, 0).is_empty());
}

#[test]
fn slices_round_down() {
    assert_eq!(us_to_slices(1_000_000), 50);
    assert_eq!(us_to_slices(19_999), 0);
}

// ---- calibration ------------------------------------------------------------

#[test]
fn candidates_run_high_to_low() {
    let all: Vec<i64> = (0..CANDIDATES).map(candidate_at).collect();
    assert_eq!(all, vec![500_000, 400_000, 300_000, 250_000, 200_000, 150_000]);
}

#[test]
fn a_wide_spread_is_calibrated_at_the_highest_of_the_plateau() {
    assert_eq!(settle(&vec![5, 3, 2, 2, 2, 4]), (300_000, Status::Calibrated));
    // also at the edge of the sweep
    assert_eq!(settle(&vec![1, 3, 3, 3, 3, 3]), (500_000, Status::Calibrated));
}

#[test]
fn a_spread_of_one_is_weak_and_never_taken_at_the_edge() {
    assert_eq!(settle(&vec![3, 3, 2, 2, 3, 3]), (300_000, Status::Weak));
    assert_eq!(settle(&vec![2, 3, 3, 3, 3, 3]), (VAD_ENTER, Status::NoSignal));
    assert_eq!(settle(&vec![3, 3, 3, 3, 3, 2]), (VAD_ENTER, Status::NoSignal));
}

#[test]
fn a_flat_sweep_keeps_the_default() {
    assert_eq!(settle(&vec![4, 4, 4, 4, 4, 4]), (VAD_ENTER, Status::NoSignal));
    assert_eq!(Status::NoSignal.label(), "no signal — default");
    assert_eq!(Status::Weak.label(), "weak (provisional)");
    assert_eq!(Status::Calibrated.label(), "calibrated");
}

#[test]
fn the_sweep_counts_sped_up_sections() {
    // 20 s of nothing: one section at every threshold
    let grid_len = 1000;
    let probs = vec![0i64; 625];
    let frozen = vec![true; grid_len];
    let energy = vec![-90_000_000i64; 2 * grid_len];
    let (t, status, table) = calibrate_threshold(&probs, &frozen, &energy, grid_len);
    assert_eq!((t, status), (VAD_ENTER, Status::NoSignal));
    assert_eq!(table.len(), CANDIDATES);
    assert!(table.iter().all(|r| r.starts == vec![0] && r.speech == 0));
}

#[test]
fn the_sweep_sees_speech_that_only_low_thresholds_mark() {
    let grid_len = 2000;
    // 40 s, with a stretch in the middle at probability 0.22
    let mut probs = vec![0i64; 1250];
    for p in probs.iter_mut().take(680).skip(600) {
        *p = 220_000;
    }
    let frozen = vec![true; grid_len];
    let energy = vec![-90_000_000i64; 2 * grid_len];
    let (_, _, table) = calibrate_threshold(&probs, &frozen, &energy, grid_len);
    let counts: Vec<usize> = table.iter().map(|r| r.starts.len()).collect();
    assert_eq!(counts, vec![1, 1, 1, 1, 2, 2]);
    assert_eq!(table[0].speech, 0);
    assert!(table[5].speech > 0);
}

// ---- the survey -------------------------------------------------------------

#[test]
fn the_trailing_partial_slice_is_dropped() {
    assert_eq!(grid_length(0), 0);
    assert_eq!(grid_length(319), 0);
    assert_eq!(grid_length(641), 2);
}

#[test]
fn bands_hold_every_value_once() {
    let b = probability_bands(&vec![0, 149_999, 150_000, 299_999, 300_000, 1_000_000]);
    assert_eq!((b.low, b.middle, b.high), (2, 2, 2));
    let e = energy_bands(&vec![-90_000_000, -44_780_000, -40_000_000, GATE_DB, 0]);
    assert_eq!((e.low, e.middle, e.high), (1, 2, 2));
}

#[test]
fn dead_slices_are_silent_and_still() {
    let speech = vec![false, false, true, true, false];
    let frozen = vec![true, false, true, false];
    assert_eq!(dead_slices(&speech, &frozen), 1);
}

#[test]
fn the_outlook_turns_at_five_and_twelve_percent() {
    assert_eq!(outlook(12, 100), Outlook::Worth);
    assert_eq!(outlook(11, 100), Outlook::Marginal);
    assert_eq!(outlook(5, 100), Outlook::Marginal);
    assert_eq!(outlook(4, 100), Outlook::Little);
    assert_eq!(outlook(0, 0), Outlook::Marginal);
    assert_eq!(outlook(50, 100).text(), "worth editing");
    assert_eq!(outlook(0, 100).text(), "little to cut — probably not worth it");
    assert_eq!(outlook(8, 100).text(), "marginal — some dead air, but not much");
}

#[test]
fn runs_are_counted_by_what_becomes_of_them() {
    let runs = vec![(0, 49), (100, 150), (200, 399), (400, 600)];
    let speed = Pacing {
        dead_air: DeadAir::Speed,
        max_speed: 20_000_000,
        pause_floor_us: 1_000_000,
    };
    let b = run_bands(&runs, &speed);
    assert_eq!((b.low, b.middle, b.high), (1, 2, 1));
    let cut = Pacing {
        dead_air: DeadAir::Cut,
        ..speed
    };
    let b = run_bands(&runs, &cut);
    assert_eq!((b.low, b.middle, b.high), (1, 3, 0));
    assert_eq!(count_slices(&runs), 498);
}

// ---- the monitor ------------------------------------------------------------

#[test]
fn the_score_is_coverage_less_false_alarms() {
    // words on slices 10..20 and 30..40 of 100
    let words = vec![word("a", 200_000, 400_000), word("b", 600_000, 800_000)];
    let all = vec![true; 100];
    let none = vec![false; 100];
    let exact = mask(&[(false, 10), (true, 10), (false, 10), (true, 10), (false, 60)]);
    let s = speech_score(&exact, &words, 100);
    assert_eq!((s.word_n, s.word_hit, s.gap_n, s.gap_hit), (20, 20, 80, 0));
    assert_eq!(s.millionths(), 1_000_000);
    assert_eq!(speech_score(&all, &words, 100).millionths(), 0);
    assert_eq!(speech_score(&none, &words, 100).millionths(), 0);
    assert!(!speech_score(&all, &words, 100).informative());
    assert!(s.informative());
    assert!(s.better_than(&speech_score(&all, &words, 100)));
    assert!(!s.better_than(&s));
}

#[test]
fn only_the_grid_is_scored() {
    let words = vec![word("a", 0, 100_000)];
    let short = mask(&[(true, 5), (false, 5)]);
    let long = mask(&[(true, 5), (false, 5), (true, 90)]);
    let s = speech_score(&short, &words, 10);
    assert_eq!(speech_score(&long, &words, 10), s);
    assert_eq!(s.millionths(), 1_000_000);
    // one slice too many, or one too few, is no longer perfect
    assert_eq!(speech_score(&mask(&[(true, 6), (false, 4)]), &words, 10).millionths(), 800_000);
    assert_eq!(speech_score(&mask(&[(true, 4), (false, 6)]), &words, 10).millionths(), 800_000);
}

#[test]
fn scores_of_any_size_are_told_apart() {
    let big = 1usize << 62;
    let s = Score {
        word_n: big,
        word_hit: big / 2,
        gap_n: big,
        gap_hit: 0,
    };
    let better = Score {
        word_hit: big / 2 + 1,
        ..s
    };
    assert_eq!(s.millionths(), 500_000);
    assert!(s.informative());
    assert!(better.better_than(&s) && !s.better_than(&better));
    let worst = Score {
        word_hit: 0,
        gap_hit: big,
        ..s
    };
    assert_eq!(worst.millionths(), -1_000_000);
}

#[test]
fn scores_below_zero_round_down() {
    let s = Score {
        word_n: 3,
        word_hit: 0,
        gap_n: 3,
        gap_hit: 1,
    };
    assert_eq!(s.millionths(), -333_334);
}

#[test]
fn only_the_speech_threshold_can_be_proposed() {
    assert_eq!(proposal(&decision("threshold", "increase"), true, 300_000), Some(480_000));
    assert_eq!(proposal(&decision("threshold", "decrease"), true, 300_000), Some(187_500));
    assert_eq!(proposal(&decision("threshold", "none"), true, 300_000), None);
    assert_eq!(proposal(&decision("snap", "increase"), true, 300_000), None);
    assert_eq!(proposal(&decision("quiet", "increase"), true, 300_000), None);
    assert_eq!(proposal(&decision("threshold", "increase"), false, 300_000), None);
    assert_eq!(proposal(&Decision::approve("fine"), true, 300_000), None);
}

#[test]
fn without_a_model_the_answer_is_approval() {
    let d = review(Reply::Unreachable);
    assert!(d.ok);
    assert_eq!(d.reason, "model unavailable");
    assert_eq!(review(Reply::BadEnvelope).reason, "model unavailable (bad envelope)");
    assert_eq!(review(Reply::BadJson).reason, "model unavailable (bad JSON)");
    let kept = review(Reply::Decided(decision("threshold", "increase")));
    assert!(!kept.ok);
    assert_eq!(kept.direction, "increase");
}

#[test]
fn the_measurement_decides() {
    // speech at 0.4 where words are, noise at 0.2 elsewhere
    let grid_len = 1000;
    let mut probs = vec![200_000i64; 625];
    for p in probs.iter_mut().take(125).skip(62) {
        *p = 900_000;
    }
    let words = vec![word("a", 2_000_000, 4_000_000)];
    let at_low = speech_mask(&probs, 150_000, 10_000, grid_len);
    let before = speech_score(&at_low, &words, grid_len);
    // everything is marked: no signal, so the proposal is ignored
    assert!(!before.informative());
    let r = monitor_speech(&probs, at_low.clone(), &words, grid_len, 150_000, &decision("threshold", "increase"));
    assert_eq!(r.mask, at_low);
    assert!(r.tried.is_none());

    // a mask with signal: a worse proposal is thrown away
    let good = speech_mask(&probs, 300_000, 150_000, grid_len);
    let score = speech_score(&good, &words, grid_len);
    assert!(!score.informative() || score.millionths() > 0);
    let probs2: Vec<i64> = probs.iter().map(|&p| if p == 200_000 { 100_000 } else { p }).collect();
    let good = speech_mask(&probs2, 300_000, 150_000, grid_len);
    let score = speech_score(&good, &words, grid_len);
    assert!(score.informative());
    let r = monitor_speech(&probs2, good.clone(), &words, grid_len, 300_000, &decision("threshold", "decrease"));
    let (t, tried) = r.tried.unwrap();
    assert_eq!(t, 187_500);
    assert!(!tried.better_than(&r.score));
    assert_eq!(r.mask, good);
}

#[test]
fn the_monitor_prompt_names_its_parts() {
    assert_eq!(
        review_prompt("S", "D", "P", "G"),
        "Monitoring one step of a video editor.\n\nSTEP: S\n\nDIAGNOSTIC:\nD\n\nPARAMETERS: P\n\nG\n\n\
         If acceptable: ok=true, parameter=\"none\", direction=\"none\". Otherwise name ONE \
         parameter and a direction.\nReply JSON."
    );
    assert_eq!(
        speech_diagnostic(43_210_000, 256_400, 12_340_000),
        "speech 43.2%\nscore 0.256\nlongest silence 12.34s"
    );
    assert_eq!(speech_parameters(300_000), "{\"threshold\": 0.30}");
}
