use elide::crop::{
    blobs, bounding_box, busy_fraction, cell_activity, content_mask, detect_crop, sample_filter,
    split_frames, Crop, CELLS,
};
use elide::freeze::{
    can_paint, freeze_filter, frozen_time, paint_freezes, read_freezes, unreadable_message,
};
use elide::num::{INFINITE, NOT_A_NUMBER};
use elide::signal::{default_signal, for_name, unknown_signal, Freeze, None_, Signal, Slides};

const SECOND: i64 = 1_000_000;

/// A grey frame with a box of another level.
fn frame(level: u8, x0: usize, y0: usize, x1: usize, y1: usize) -> Vec<u8> {
    let mut f = vec![0u8; CELLS];
    for y in y0..y1 {
        for x in x0..x1 {
            f[y * 160 + x] = level;
        }
    }
    f
}

// ---- the content region -----------------------------------------------------

#[test]
fn raw_video_is_cut_into_whole_frames() {
    let frames = split_frames(&vec![7u8; 2 * CELLS + 5]);
    assert_eq!(frames.len(), 2);
    assert!(frames.iter().all(|f| f.len() == CELLS));
}

#[test]
fn blobs_touch_by_their_sides_and_come_largest_first() {
    // 4 wide: a lone cell, and an L of three
    let mask = vec![
        true, false, false, false, //
        false, true, true, false, //
        false, true, false, false,
    ];
    let bs = blobs(&mask, 4, 3);
    assert_eq!(bs.len(), 2);
    let mut first = bs[0].clone();
    first.sort();
    assert_eq!(first, vec![5, 6, 9]);
    assert_eq!(bs[1], vec![0]);
    assert!(blobs(&vec![false; 12], 4, 3).is_empty());
}

#[test]
fn the_box_is_tight() {
    assert_eq!(bounding_box(&vec![5, 6, 9], 4), (1, 1, 2, 2));
    assert_eq!(bounding_box(&vec![11], 4), (3, 2, 3, 2));
}

#[test]
fn a_still_picture_has_no_content_region() {
    let frames = vec![frame(10, 0, 0, 160, 90); 5];
    let a = cell_activity(&frames);
    assert_eq!(a.pairs, 4);
    assert!(a.sums.iter().all(|&s| s == 0));
    assert!(content_mask(&a).is_none());
    assert!(detect_crop(&frames, 1920, 1080).is_none());
}

#[test]
fn content_is_relative_to_the_peak() {
    let mut f = frame(100, 0, 0, 10, 10);
    f[160 * 50] = 8; // exactly eight hundredths of the peak
    f[160 * 50 + 1] = 9;
    let a = cell_activity(&vec![vec![0u8; CELLS], f]);
    let (mask, threshold) = content_mask(&a).unwrap();
    assert_eq!(threshold, 8_000_000);
    assert!(mask[0] && !mask[160 * 50] && mask[160 * 50 + 1]);
}

#[test]
fn a_window_is_found_and_a_camera_is_not() {
    // a window that changes once, and a camera that changes all the time
    let mut frames = Vec::new();
    for k in 0..20usize {
        let mut f = frame(if k < 10 { 0 } else { 200 }, 20, 10, 60, 50);
        let c = frame(if k % 2 == 0 { 0 } else { 255 }, 100, 20, 150, 80);
        for i in 0..CELLS {
            f[i] = f[i].max(c[i]);
        }
        frames.push(f);
    }
    let camera: Vec<usize> = (20..80).flat_map(|y| (100..150).map(move |x| y * 160 + x)).collect();
    assert_eq!(busy_fraction(&camera, &frames), (19, 19));
    // 10.5 levels a frame against 255: the window is under the mask's threshold
    assert!(detect_crop(&frames, 1920, 1080).is_none());

    // without the camera the window is all there is
    let frames: Vec<Vec<u8>> = (0..20usize)
        .map(|k| frame(if k < 10 { 0 } else { 200 }, 20, 10, 60, 50))
        .collect();
    let crop = detect_crop(&frames, 1920, 1080).unwrap();
    assert_eq!(crop.text(), "480:480:240:120");
}

#[test]
fn crops_are_even_and_stay_in_the_picture() {
    let frames = vec![vec![0u8; CELLS], frame(255, 0, 0, 160, 90)];
    // a full-frame blob moves in the only pair, so it counts as a camera
    assert!(detect_crop(&frames, 101, 77).is_none());
    let frames: Vec<Vec<u8>> = (0..20usize)
        .map(|k| frame(if k < 10 { 0 } else { 255 }, 0, 0, 160, 90))
        .collect();
    let c = detect_crop(&frames, 101, 77).unwrap();
    assert_eq!((c.x, c.y), (0, 0));
    assert_eq!((c.w % 2, c.h % 2), (0, 0));
    assert_eq!(Crop::whole(101, 77).text(), "101:77:0:0");
}

#[test]
fn frames_are_sampled_evenly() {
    assert_eq!(sample_filter(100 * SECOND), "fps=2,scale=160:90,format=gray");
    assert_eq!(sample_filter(80 * SECOND), "fps=2.5,scale=160:90,format=gray");
    assert_eq!(sample_filter(30 * SECOND), "fps=6.666666666666667,scale=160:90,format=gray");
    assert_eq!(sample_filter(1), "fps=200000000,scale=160:90,format=gray");
}

// ---- freezes ----------------------------------------------------------------

#[test]
fn the_freeze_filter_is_exact() {
    assert_eq!(
        freeze_filter("10:20:0:4"),
        "crop=10:20:0:4,fps=5,freezedetect=n=-58dB:d=2.0"
    );
}

#[test]
fn a_report_is_read_line_by_line() {
    let report = "noise\n[x] lavfi.freezedetect.freeze_start: 1.5\n[x] freeze_duration: 2\n\
                  [x] freeze_end: 3.5\r\n[x] freeze_start: 9\n";
    assert_eq!(
        read_freezes(report).unwrap(),
        vec![(1_500_000, Some(3_500_000)), (9 * SECOND, None)]
    );
    assert!(read_freezes("").unwrap().is_empty());
    assert_eq!(read_freezes("freeze_start: 1e-10000").unwrap(), vec![(0, None)]);
    let odd = read_freezes("freeze_start: nan\nfreeze_end: inf\nfreeze_start: 1e40").unwrap();
    assert_eq!(odd, vec![(NOT_A_NUMBER, Some(INFINITE)), (INFINITE, None)]);
    // what is no number starts at zero, and infinity is past the end
    assert_eq!(paint_freezes(&odd[..1].to_vec(), 3, SECOND), vec![true; 3]);
    assert_eq!(frozen_time(&odd, SECOND), NOT_A_NUMBER);
    assert_eq!(frozen_time(&vec![(0, Some(INFINITE))], SECOND), INFINITE);
}

#[test]
fn every_malformed_report_is_an_error() {
    let message = |r: &str| read_freezes(r).unwrap_err().message();
    assert_eq!(
        message("freeze_start: soon"),
        "freezedetect printed an unreadable freeze_start \"soon\": invalid float literal"
    );
    assert_eq!(
        message("freeze_start: 1\nfreeze_end: late"),
        "freezedetect printed an unreadable freeze_end \"late\": invalid float literal"
    );
    assert_eq!(
        message("freeze_start:  \t"),
        "freezedetect printed an unreadable freeze_start \" \\t\": cannot parse float from \
         empty string"
    );
    assert_eq!(
        message("freeze_end: -Infinity"),
        "freezedetect ended a freeze at -infs that never started"
    );
    assert_eq!(
        unreadable_message("freeze_end", "'x'", "x"),
        "freezedetect printed an unreadable freeze_end 'x': invalid float literal"
    );
    assert_eq!(
        message("freeze_start: 1\nfreeze_start: 2"),
        "freezedetect started a freeze at 2.00s while the one at 1.00s never ended"
    );
    assert_eq!(
        message("freeze_start: 1\nfreeze_end: 2\nfreeze_end: 3"),
        "freezedetect ended a freeze at 3.00s that already ended at 2.00s"
    );
    assert_eq!(
        message("freeze_end: 3"),
        "freezedetect ended a freeze at 3.00s that never started"
    );
}

#[test]
fn freezes_are_painted_onto_the_grid() {
    let freezes = vec![(40_000, Some(100_000)), (160_000, None)];
    assert!(can_paint(&freezes, 10, 200_000));
    assert_eq!(
        paint_freezes(&freezes, 10, 200_000),
        vec![false, false, true, true, true, false, false, false, true, true]
    );
    assert_eq!(frozen_time(&freezes, 200_000), 100_000);
}

#[test]
fn an_open_freeze_lasts_to_the_end() {
    let m = paint_freezes(&vec![(0, None)], 50, SECOND);
    assert!(m.iter().all(|&b| b));
}

#[test]
fn a_freeze_that_ends_before_it_starts_cannot_be_painted() {
    assert!(!can_paint(&vec![(SECOND, Some(0))], 100, 2 * SECOND));
}

// ---- signals ----------------------------------------------------------------

#[test]
fn signals_go_by_name() {
    assert!(matches!(for_name("freeze"), Some(Signal::Freeze(_))));
    assert!(matches!(for_name("slides"), Some(Signal::Slides(_))));
    assert!(matches!(for_name("none"), Some(Signal::Silence(_))));
    assert!(for_name("Freeze").is_none());
    assert_eq!(
        unknown_signal("x"),
        "unknown --signal x (expected freeze, slides or none)"
    );
    assert_eq!(default_signal(true).name(), "freeze");
    assert_eq!(default_signal(false).name(), "none");
    assert_eq!(Slides.name(), "slides");
}

#[test]
fn without_a_signal_silence_decides_alone() {
    assert_eq!(None_.mask(3), vec![true, true, true]);
}

#[test]
fn the_freeze_signal_paints_freezes() {
    assert_eq!(
        Freeze.mask(&vec![(20_000, Some(40_000))], 3, 60_000),
        vec![false, true, false]
    );
}

#[test]
fn a_slide_change_is_when_something_happens() {
    // 200 frames over 200 s: one a second
    let mut frames = vec![vec![0u8; CELLS]; 3];
    frames[1] = vec![6u8; CELLS];
    frames[2] = vec![1u8; CELLS];
    let (m, changes) = Slides.mask(&frames, 250, 200 * SECOND).unwrap();
    assert_eq!(changes, 1);
    // still but for 1 s to 3 s
    for (i, still) in m.iter().enumerate() {
        assert_eq!(*still, !(50..150).contains(&i));
    }
    assert!(Slides.mask(&vec![vec![0u8; CELLS]], 250, SECOND).is_none());
}
