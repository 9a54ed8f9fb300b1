use elide::num::{INFINITE, NOT_A_NUMBER};
use elide::plan::{build_plan, Plan, Segment, Speed};
use elide::verify::{
    all_passed, check_clicks, check_duration, check_faststart, check_loudness, check_sync,
    click_stats, find_atom, read_ssim, report_line, sync_checkpoints, verify, Measured, SsimError,
};

const SECOND: i64 = 1_000_000;

fn plan(segs: &[(i64, i64)]) -> Plan {
    let segs: Vec<Segment> = segs
        .iter()
        .map(|&(src_start, src_end)| Segment {
            src_start,
            src_end,
            speed: Speed { num: 1, den: 1 },
        })
        .collect();
    build_plan(&segs, 100 * SECOND, 0, String::new()).unwrap()
}

fn two_parts() -> Plan {
    plan(&[(0, 2 * SECOND), (5 * SECOND, 7 * SECOND)])
}

#[test]
fn duration_has_half_a_second_of_slack() {
    let p = two_parts();
    let c = check_duration(4_500_000, &p);
    assert_eq!(
        (c.name, c.passed, c.detail.as_str()),
        ("duration", true, "4.50s vs plan 4.00s (+0.50s)")
    );
    assert!(!check_duration(4_500_001, &p).passed);
    let c = check_duration(3_400_000, &p);
    assert_eq!((c.passed, c.detail.as_str()), (false, "3.40s vs plan 4.00s (-0.60s)"));
    let c = check_duration(INFINITE, &p);
    assert_eq!((c.passed, c.detail.as_str()), (false, "infs vs plan 4.00s (+infs)"));
    let c = check_duration(NOT_A_NUMBER, &p);
    assert_eq!((c.passed, c.detail.as_str()), (false, "NaNs vs plan 4.00s (NaNs)"));
}

#[test]
fn atoms_are_found_at_any_offset() {
    assert_eq!(find_atom(b"xxmoov", b"moov"), Some(2));
    assert_eq!(find_atom(b"moo", b"moov"), None);
    assert_eq!(find_atom(b"moomoov", b"moov"), Some(3));
    assert_eq!(find_atom(b"", b"moov"), None);
}

#[test]
fn the_index_must_come_before_the_data() {
    let c = check_faststart(b"....moov....mdat");
    assert_eq!(
        (c.passed, c.detail.as_str()),
        (true, "moov at Some(4), mdat at Some(12)")
    );
    assert!(!check_faststart(b"mdat....moov").passed);
    let c = check_faststart(b"moov");
    assert_eq!((c.passed, c.detail.as_str()), (true, "moov at Some(0), mdat at None"));
    let c = check_faststart(b"mdat");
    assert_eq!((c.passed, c.detail.as_str()), (false, "moov at None, mdat at Some(0)"));
    assert!(!check_faststart(b"").passed);
    // past the head nothing is seen
    let mut late = vec![0u8; 65536];
    late.extend_from_slice(b"moov");
    assert!(!check_faststart(&late).passed);
}

#[test]
fn loudness_has_a_fixed_tolerance() {
    let c = check_loudness(-14_200_000, -1_200_000, -14_000_000);
    assert_eq!((c.passed, c.detail.as_str()), (true, "-14.20 LUFS, -1.20 dBTP"));
    assert!(!check_loudness(-14_200_001, -1_200_000, -14_000_000).passed);
    assert!(!check_loudness(-14_000_000, -1_199_999, -14_000_000).passed);
    assert!(check_loudness(-22_900_000, -9_000_000, -23_000_000).passed);
    assert!(!check_loudness(i64::MIN, 0, i64::MAX).passed);
    // silence is measured, and fails
    let c = check_loudness(-INFINITE, -INFINITE, -14_000_000);
    assert_eq!((c.passed, c.detail.as_str()), (false, "-inf LUFS, -inf dBTP"));
    assert!(check_loudness(-14_000_000, -INFINITE, -14_000_000).passed);
    let c = check_loudness(-14_000_000, NOT_A_NUMBER, -14_000_000);
    assert_eq!((c.passed, c.detail.as_str()), (false, "-14.00 LUFS, NaN dBTP"));
    assert!(!check_loudness(INFINITE, 0, INFINITE).passed);
}

#[test]
fn checkpoints_divide_the_output() {
    let p = plan(&[(0, 4 * SECOND), (6 * SECOND, 10 * SECOND)]);
    let points = sync_checkpoints(&p);
    assert_eq!(points.len(), 7);
    assert_eq!((points[0].out_t, points[0].src_t), (SECOND, Some(SECOND)));
    assert_eq!((points[3].out_t, points[3].src_t), (4 * SECOND, Some(6 * SECOND)));
    assert_eq!((points[6].out_t, points[6].src_t), (7 * SECOND, Some(9 * SECOND)));
    // an empty plan places none
    assert!(sync_checkpoints(&plan(&[])).iter().all(|c| c.src_t.is_none()));
    // nor does one that has a duration and nothing to play
    let hollow = Plan {
        out_duration_us: 8 * SECOND,
        ..plan(&[])
    };
    let points = sync_checkpoints(&hollow);
    assert_eq!(points.len(), 7);
    assert_eq!((points[1].out_t, points[1].src_t), (2 * SECOND, None));
    assert!(check_duration(8 * SECOND, &hollow).passed);
}

#[test]
fn the_worst_frame_decides() {
    let c = check_sync(&vec![990_000, 900_000, 1_000_000], 0);
    assert_eq!((c.passed, c.detail.as_str()), (true, "worst 0.900 over 3 checkpoints"));
    let c = check_sync(&vec![NOT_A_NUMBER, INFINITE], 0);
    assert_eq!((c.passed, c.detail.as_str()), (true, "worst 1.000 over 2 checkpoints"));
    let c = check_sync(&vec![-INFINITE], 0);
    assert_eq!((c.passed, c.detail.as_str()), (false, "worst -inf over 1 checkpoints"));
    assert!(!check_sync(&vec![990_000, 899_999], 0).passed);
    let c = check_sync(&vec![950_000], 2);
    assert_eq!(c.detail, "worst 0.950 over 1 checkpoints (2 could not be placed)");
}

#[test]
fn checking_nothing_is_a_failure() {
    let c = check_sync(&Vec::new(), 7);
    assert_eq!(
        (c.passed, c.detail.as_str()),
        (false, "worst 1.000 over 0 checkpoints (7 could not be placed)")
    );
}

#[test]
fn a_score_is_read_after_its_mark() {
    assert_eq!(read_ssim("SSIM Y:0.9 All:0.987654 (19.1)").unwrap(), 987_654);
    assert_eq!(read_ssim("All: 1.000000\nAll:0.5").unwrap(), 1_000_000);
    assert!(matches!(read_ssim("no score"), Err(SsimError::Missing)));
    assert!(matches!(read_ssim("All: \n"), Err(SsimError::Blank { .. })));
    match read_ssim("All:abc def") {
        Err(SsimError::NotANumber { text }) => assert_eq!(text, "abc"),
        _ => panic!("read a number"),
    }
}

/// Two seconds at a rate of 1000, then two more; a slow ramp with one step.
fn ramp(step_at: usize, step: i64) -> Vec<i64> {
    let mut v = Vec::new();
    let mut x = 0;
    for k in 0..4000usize {
        if k == step_at {
            x += step;
        } else {
            x += if k % 2 == 0 { 1_000_000 } else { -1_000_000 };
        }
        v.push(x);
    }
    v
}

#[test]
fn a_step_at_a_splice_is_a_click() {
    let p = two_parts();
    let (failures, worst, peak) = click_stats(&ramp(2000, 500_000_000), 1000, &p);
    assert_eq!((failures, worst, peak), (1, 500_000_000, 1_000_000));
    // the same step elsewhere is not
    let (failures, worst, _) = click_stats(&ramp(1500, 500_000_000), 1000, &p);
    assert_eq!((failures, worst), (0, 1_000_000));
}

#[test]
fn clicks_are_reported_with_the_programme_before_the_limiter() {
    let p = two_parts();
    let loud = ramp(2000, 500_000_000);
    let soft = ramp(1500, 500_000_000);
    let c = check_clicks(&loud, 1000, &p, None);
    assert_eq!(
        (c.passed, c.detail.as_str()),
        (false, "1 / 1 (worst 0.5000 vs p99.9 0.0010)")
    );
    let c = check_clicks(&soft, 1000, &p, Some((&loud, 1000)));
    assert_eq!(
        (c.passed, c.detail.as_str()),
        (true, "0 / 1 (worst 0.0010 vs p99.9 0.0010; pre-limiter worst 0.5000)")
    );
}

#[test]
fn most_jumps_stay_under_the_typical_peak() {
    let samples: Vec<i64> = (0..5000i64).map(|k| k * k * 7919 % 1_000_003).collect();
    let (_, _, peak) = click_stats(&samples, 1000, &two_parts());
    let under = samples.windows(2).filter(|w| (w[1] - w[0]).abs() <= peak).count();
    assert!(1000 * under > 999 * (samples.len() - 1));
}

#[test]
fn splices_outside_the_recording_are_not_heard() {
    let p = two_parts();
    let (failures, worst, _) = click_stats(&ramp(0, 1), 1, &plan(&[(0, 0), (0, SECOND)]));
    assert_eq!((failures, worst), (0, 0));
    let (_, worst, _) = click_stats(&vec![0, 5], 1000, &p);
    assert_eq!(worst, 0);
}

#[test]
fn every_check_is_run_in_order() {
    let m = Measured {
        duration_us: 4 * SECOND,
        bytes: b"moov".to_vec(),
        lufs: -14_000_000,
        true_peak: -2_000_000,
        samples: ramp(1500, 1_000_000),
        sample_rate: 1000,
        pre: None,
        scores: vec![950_000],
        skipped: 0,
    };
    let checks = verify(&m, &two_parts(), -14_000_000);
    let names: Vec<&str> = checks.iter().map(|c| c.name).collect();
    assert_eq!(names, vec!["duration", "faststart", "loudness", "splice clicks", "a/v sync"]);
    assert!(all_passed(&checks));

    let worse = Measured { scores: Vec::new(), ..m };
    let checks = verify(&worse, &two_parts(), -14_000_000);
    assert!(!all_passed(&checks));
    assert_eq!(
        report_line(&checks[4]),
        "  a/v sync         FAIL  worst 1.000 over 0 checkpoints"
    );
    assert_eq!(
        report_line(&checks[0]),
        "  duration         PASS  4.00s vs plan 4.00s (+0.00s)"
    );
    assert!(all_passed(&Vec::new()));
}
