use elide::align::{belongs, chunk, chunk_words, keep_owned, order_words, Piece};
use elide::audio::{
    first_pass_filter, loudness, measure_filter, number, report_span, stats, volume_filter,
    Loudnorm,
};
use elide::captions::Word;
use elide::constants::TARGET_LUFS;
use elide::dsp::{
    band_bins, bit_reversal, energy_frames, energy_span, resample_at, span_frames, BANDS, BINS,
};
use elide::features::{boxcar, smooth};
use elide::master::{gain_to, master_filter, prefilter, would_clip};
use elide::num::{
    is_decimal, parse_micros, push_padded, show_count, show_fixed, show_fixed_nano,
    show_fixed_signed, show_shortest, INFINITE, NOT_A_NUMBER,
};
use elide::order::stable_order;
use elide::plan::{Segment, Speed};
use elide::probe::{
    first_stream, parse_fps, read_source, Format, FrameRate, Probe, ProbeError, Stream,
};
use elide::render::{atempo_chain, concat_list, segment_args, segment_file};
use elide::utilities::{fmt_time, show_percent};

const SECOND: i64 = 1_000_000;

// ---- numbers ----------------------------------------------------------------

#[test]
fn fixed_point_is_written_like_floating_point() {
    assert_eq!(show_fixed(-14_250_000, 1), format!("{:.1}", -14.25f64));
    assert_eq!(show_fixed(1_005_000, 2), "1.00");
    assert_eq!(show_fixed(1_015_000, 2), "1.02");
    assert_eq!(show_fixed(-4_000, 2), "-0.00");
    assert_eq!(show_fixed(1_500_000, 0), "2");
    assert_eq!(show_fixed(123_456_789, 6), "123.456789");
    assert_eq!(show_fixed_signed(500_000, 2), "+0.50");
    assert_eq!(show_fixed_signed(-500_000, 2), "-0.50");
    assert_eq!(show_fixed_nano(44_312_345, 4), "0.0443");
    assert_eq!(show_shortest(-13_950_000), "-13.95");
    assert_eq!(show_shortest(2_000_000), "2");
    assert_eq!(show_shortest(-1), "-0.000001");
    assert_eq!(show_count(0), "0");
    let mut s = String::new();
    push_padded(&mut s, 7, 3);
    assert_eq!(s, "007");
}

#[test]
fn numbers_are_read_to_the_nearest_millionth() {
    assert_eq!(parse_micros("1.5"), Some(1_500_000));
    assert_eq!(parse_micros("-0.0000004"), Some(0));
    assert_eq!(parse_micros("-0.0000005"), Some(-1));
    assert_eq!(parse_micros("0.0000015"), Some(2));
    assert_eq!(parse_micros("+3."), Some(3_000_000));
    assert_eq!(parse_micros(".25"), Some(250_000));
    assert_eq!(parse_micros("1e3"), Some(1_000_000_000));
    assert_eq!(parse_micros("2.5E-3"), Some(2_500));
    for bad in ["", ".", "-", "1 ", " 1", "1e", "1.2.3", "0x1", "abc"] {
        assert_eq!(parse_micros(bad), None, "{bad:?}");
    }
    assert_eq!(parse_micros("99999999999999"), None);
    // a far exponent moves every digit out of sight, or out of range
    assert_eq!(parse_micros("1e-10000"), Some(0));
    assert_eq!(parse_micros("-123.4e-99999999999999999999999"), Some(0));
    assert_eq!(parse_micros("0e99999"), Some(0));
    assert_eq!(parse_micros("0.000e+99999999999999999999999"), Some(0));
    assert_eq!(parse_micros("1e10000"), None);
    assert_eq!(parse_micros("-1e99999999999999999999999"), None);
    assert_eq!(parse_micros("1e-"), None);
    assert!(is_decimal("1e10000") && !is_decimal("inf") && !is_decimal(""));
}

#[test]
fn sorting_is_stable() {
    assert_eq!(stable_order(&vec![3, 1, 3, -2, 1]), vec![3, 1, 4, 0, 2]);
    assert!(stable_order(&Vec::new()).is_empty());
}

#[test]
fn times_and_shares_are_shown_short() {
    assert_eq!(fmt_time(0), "00:00.0");
    assert_eq!(fmt_time(65_260_000), "01:05.3");
    assert_eq!(fmt_time(3_600 * SECOND), "60:00.0");
    assert_eq!(fmt_time(59_990_000), "00:60.0");
    assert_eq!(fmt_time(-SECOND), "-1:59.0");
    assert_eq!(show_percent(1, 3), "33.3");
    assert_eq!(show_percent(1, 1), "100.0");
    assert_eq!(show_percent(0, 0), "NaN");
}

// ---- loudness ---------------------------------------------------------------

fn report() -> Loudnorm {
    Loudnorm {
        input_i: "-21.37".to_string(),
        input_tp: "-3.05".to_string(),
        input_lra: "6.10".to_string(),
        input_thresh: "-31.90".to_string(),
        target_offset: "0.02".to_string(),
    }
}

#[test]
fn the_report_is_cut_out_of_the_log() {
    assert_eq!(report_span("log\n{ \"a\": {} }\nbye").unwrap(), "{ \"a\": {} }");
    assert!(report_span("no braces").is_none());
    assert!(report_span("only {").is_none());
    assert!(report_span("only }").is_none());
    assert_eq!(report_span("a }{ b").unwrap(), "");
}

#[test]
fn every_field_of_the_report_is_read() {
    assert_eq!(loudness(&report()).unwrap(), (-21_370_000, -3_050_000));
    let s = stats(&report()).unwrap();
    assert_eq!(
        (s.input_i, s.input_tp, s.input_lra, s.input_thresh, s.target_offset),
        (-21_370_000, -3_050_000, 6_100_000, -31_900_000, 20_000)
    );
}

#[test]
fn the_first_unreadable_field_is_named() {
    assert_eq!(number("-inf", "input_i").unwrap(), -INFINITE);
    assert_eq!(number("+InFiNiTy", "input_i").unwrap(), INFINITE);
    assert_eq!(number("-NaN", "input_i").unwrap(), NOT_A_NUMBER);
    assert_eq!(number("1e40", "input_i").unwrap(), INFINITE);
    assert_eq!(number("-1e40", "input_i").unwrap(), -INFINITE);
    assert!(number("infin", "input_i").is_err() && number("--inf", "input_i").is_err());
    let e = number("loud", "input_i").unwrap_err();
    assert_eq!((e.name, e.value.as_str()), ("input_i", "loud"));
    let mut l = report();
    l.input_thresh = "x".to_string();
    l.target_offset = "y".to_string();
    let e = stats(&l).unwrap_err();
    assert_eq!((e.name, e.value.as_str()), ("input_thresh", "x"));
    assert!(loudness(&l).is_ok());
    l.input_tp = "z".to_string();
    assert_eq!(loudness(&l).unwrap_err().name, "input_tp");
    l.input_i = "w".to_string();
    assert_eq!(loudness(&l).unwrap_err().name, "input_i");
}

#[test]
fn measuring_filters_are_exact() {
    assert_eq!(
        measure_filter(&Vec::new(), TARGET_LUFS),
        "loudnorm=I=-23:print_format=json"
    );
    assert_eq!(
        measure_filter(&prefilter(), -14_000_000),
        "highpass=f=75,afftdn=nr=12:nf=-45,loudnorm=I=-14:print_format=json"
    );
    assert_eq!(
        first_pass_filter(&Vec::new(), -14_000_000, -1_500_000, 11_000_000),
        "loudnorm=I=-14:TP=-1.5:LRA=11:print_format=json"
    );
    assert_eq!(volume_filter(-1_630_000), "volume=-1.63dB");
}

#[test]
fn mastering_compresses_only_when_it_would_clip() {
    assert_eq!(gain_to(-20_000_000, -14_000_000), 6_000_000);
    // silence takes an infinite gain, and has no peak to lift
    assert_eq!(gain_to(-INFINITE, -14_000_000), INFINITE);
    assert_eq!(volume_filter(INFINITE), "volume=infdB");
    assert!(!would_clip(-INFINITE, -INFINITE, -14_000_000));
    assert!(would_clip(-INFINITE, -80_000_000, -14_000_000));
    assert_eq!(gain_to(NOT_A_NUMBER, 0), NOT_A_NUMBER);
    // a peak of -7.5 with 6 of gain is at the ceiling, not over it
    assert!(!would_clip(-20_000_000, -7_500_000, -14_000_000));
    assert!(would_clip(-20_000_000, -7_499_999, -14_000_000));
    assert_eq!(
        master_filter(false, -14_000_000),
        "highpass=f=75,afftdn=nr=12:nf=-45,loudnorm=I=-13.95:TP=-1.5:LRA=11,\
         alimiter=limit=0.794:level=disabled"
    );
    assert_eq!(
        master_filter(true, -16_000_000),
        "highpass=f=75,afftdn=nr=12:nf=-45,\
         acompressor=threshold=-28dB:ratio=3:attack=10:release=250:makeup=8,\
         loudnorm=I=-15.95:TP=-1.5:LRA=11,alimiter=limit=0.794:level=disabled"
    );
}

#[test]
fn the_ceiling_does_not_depend_on_the_target() {
    let tail = |t: i64| master_filter(false, t).rsplit(',').next().unwrap().to_string();
    assert_eq!(tail(-14_000_000), tail(-23_000_000));
}

// ---- the source -------------------------------------------------------------

fn stream(kind: &str) -> Stream {
    Stream {
        codec_type: kind.to_string(),
        width: Some(1920),
        height: Some(1080),
        r_frame_rate: Some("60000/1001".to_string()),
        sample_rate: None,
    }
}

fn probe(streams: Vec<Stream>, duration: &str) -> Probe {
    Probe {
        format: Format {
            duration: duration.to_string(),
        },
        streams,
    }
}

#[test]
fn frame_rates_are_fractions() {
    let f = parse_fps("60000/1001").unwrap();
    assert_eq!(f.text(), "59.940");
    assert_eq!(parse_fps("25/1").unwrap().text(), "25.000");
    assert_eq!(FrameRate { num: -1, den: 3 }.text(), "-0.333");
    assert_eq!(parse_fps("inf/-1").unwrap().text(), "-inf");
    assert_eq!(parse_fps("1e12/inf").unwrap().text(), "0.000");
    assert_eq!(parse_fps("-Infinity/inf").unwrap().text(), "NaN");
    assert_eq!(parse_fps("nan/1").unwrap().text(), "NaN");
    for bad in ["25", "25/0", "a/1", "1/b", "1/2/3", ""] {
        assert!(parse_fps(bad).is_none(), "{bad:?}");
    }
}

#[test]
fn the_first_video_stream_describes_the_source() {
    let p = probe(vec![stream("audio"), stream("video"), stream("video")], "12.5");
    assert_eq!(first_stream(&p, "video"), Some(1));
    assert_eq!(first_stream(&p, "subtitle"), None);
    let s = read_source(&p).unwrap();
    assert_eq!((s.duration_us, s.width, s.height), (12_500_000, 1920, 1080));
}

#[test]
fn what_is_lacking_is_named_in_order() {
    let err = |p: &Probe| read_source(p).unwrap_err();
    assert_eq!(err(&probe(vec![stream("audio")], "x")), ProbeError::NoVideo);
    let mut v = stream("video");
    v.width = None;
    v.height = None;
    v.r_frame_rate = None;
    let mut p = probe(vec![v], "x");
    assert_eq!(err(&p), ProbeError::BadDuration);
    p.format.duration = "1".to_string();
    assert_eq!(err(&p), ProbeError::BadFrameRate);
    p.streams[0].r_frame_rate = Some("30/0".to_string());
    assert_eq!(err(&p), ProbeError::BadFrameRate);
    p.streams[0].r_frame_rate = Some("30/1".to_string());
    assert_eq!(err(&p), ProbeError::NoWidth);
    p.streams[0].width = Some(1);
    assert_eq!(err(&p), ProbeError::NoHeight);
}

// ---- rendering --------------------------------------------------------------

#[test]
fn tempo_is_chained_in_twos() {
    let chain = |num, den| atempo_chain(&Speed { num, den });
    assert_eq!(chain(3, 2), "atempo=1.500000");
    assert_eq!(chain(2, 1), "atempo=2.000000");
    assert_eq!(chain(10, 1), "atempo=2.000000,atempo=2.000000,atempo=2.000000,atempo=1.250000");
    assert_eq!(chain(20, 3), "atempo=2.000000,atempo=2.000000,atempo=1.666667");
}

#[test]
fn a_segment_is_rendered_as_it_plays() {
    let normal = Segment {
        src_start: 1_500_000,
        src_end: 2 * SECOND,
        speed: Speed { num: 1, den: 1 },
    };
    let args = segment_args("in.mp4", &normal);
    assert_eq!(
        args[..7],
        ["-y", "-ss", "1.500000", "-to", "2.000000", "-i", "in.mp4"]
    );
    assert_eq!(args[7], "-c:v");
    assert_eq!(args.len(), 25);

    let fast = Segment {
        speed: Speed { num: 4, den: 1 },
        ..normal
    };
    let args = segment_args("in.mp4", &fast);
    assert_eq!(
        args[7..11],
        [
            "-vf",
            "setpts=PTS/4.000000",
            "-af",
            "atempo=2.000000,atempo=2.000000,volume=0"
        ]
    );
    assert_eq!(args.len(), 29);
}

#[test]
fn rendered_files_are_listed_in_order() {
    assert_eq!(segment_file(7), "seg_007.mkv");
    assert_eq!(segment_file(1234), "seg_1234.mkv");
    assert_eq!(
        concat_list(&vec!["a b".to_string(), "c".to_string()]),
        "file 'a b'\nfile 'c'\n"
    );
    assert_eq!(concat_list(&Vec::new()), "");
}

// ---- transcription ----------------------------------------------------------

const RATE: u32 = 16_000;

fn piece(text: &str, t0: i64, t1: i64, prob: i64) -> Piece {
    Piece {
        text: text.to_string(),
        t0,
        t1,
        prob,
    }
}

fn word(text: &str, start: i64, end: i64) -> Word {
    Word {
        text: text.to_string(),
        start,
        end,
        prob: 0,
    }
}

#[test]
fn chunks_overlap_by_three_seconds() {
    let n = 60 * RATE as usize;
    let c: Vec<(usize, usize, bool)> = (0..5)
        .map_while(|k| chunk(k, n, RATE))
        .map(|c| (c.first / RATE as usize, c.end / RATE as usize, c.last))
        .collect();
    assert_eq!(c, vec![(0, 30, false), (27, 57, false), (54, 60, true)]);
    // half a second is worth decoding, less is not
    assert!(chunk(0, 8_000, RATE).is_some());
    assert!(chunk(0, 7_999, RATE).is_none());
    assert!(chunk(0, 0, RATE).is_none());
}

#[test]
fn every_word_belongs_to_one_chunk() {
    // in half seconds: some of them end in an overlap
    for halves in [10usize, 54, 55, 56, 57, 58, 59, 60, 61, 62, 112, 113, 120, 122, 200] {
        let n = halves * RATE as usize / 2;
        for t in 0..5 * halves as i64 {
            let w = word("x", t * 100_000, t * 100_000);
            let owners = (0..10)
                .map_while(|k| chunk(k, n, RATE))
                .filter(|c| belongs(c, n, RATE, &w))
                .count();
            assert_eq!(owners, 1, "{halves} half seconds at {t}");
        }
    }
}

#[test]
fn a_word_at_a_seam_is_kept_once() {
    // both chunks of 29.5 s hear the word
    let n = 29 * RATE as usize + RATE as usize / 2;
    let heard = vec![word("once", 28_900_000, 29_100_000)];
    let mut out = Vec::new();
    let mut k = 0;
    while let Some(c) = chunk(k, n, RATE) {
        keep_owned(&mut out, &heard, &c, n, RATE);
        k += 1;
    }
    assert_eq!(k, 2);
    let texts: Vec<String> = order_words(&out).into_iter().map(|w| w.text).collect();
    assert_eq!(texts, vec!["once"]);
}

#[test]
fn pieces_make_words() {
    let pieces = vec![
        piece("[_BEG_]", 0, 0, 1_000_000),
        piece(" Hel", 10, 20, 800_000),
        piece("lo", 20, 30, 600_000),
        piece(" ", 30, 40, 100_000),
        piece(" you", 40, 55, 500_000),
        piece(".", 55, 60, 300_000),
    ];
    let ws = chunk_words(&pieces, 27 * SECOND);
    let got: Vec<(&str, i64, i64, i64)> = ws
        .iter()
        .map(|w| (w.text.as_str(), w.start, w.end, w.prob))
        .collect();
    assert_eq!(
        got,
        vec![
            (" Hello", 27_100_000, 27_300_000, 700_000),
            (" you.", 27_400_000, 27_600_000, 400_000),
        ]
    );
    assert!(chunk_words(&Vec::new(), 0).is_empty());
}

#[test]
fn kept_words_come_out_in_time_order() {
    let n = 60 * RATE as usize;
    let mut out = Vec::new();
    let second = chunk(1, n, RATE).unwrap();
    let first = chunk(0, n, RATE).unwrap();
    let ws = vec![word("b", 28_000_000, 28_400_000), word("c", 28_500_000, 28_700_000)];
    keep_owned(&mut out, &ws, &second, n, RATE);
    keep_owned(&mut out, &ws, &first, n, RATE);
    assert_eq!(out.len(), 2);
    let texts: Vec<String> = order_words(&out).into_iter().map(|w| w.text).collect();
    assert_eq!(texts, vec!["b", "c"]);
}

// ---- measurements -----------------------------------------------------------

#[test]
fn a_boxcar_is_a_centred_mean() {
    assert_eq!(boxcar(&vec![0, 3, 6, 9], 3), vec![1, 3, 6, 7]);
    assert_eq!(boxcar(&vec![5, 7], 0), vec![5, 7]);
    // an even window holds as many frames as it says
    assert_eq!(boxcar(&vec![0, 0, 0, 6, 0, 0, 0], 2), vec![0, 0, 0, 3, 3, 0, 0]);
    assert_eq!(boxcar(&vec![8, 0, 0, 0, 8], 4), vec![4, 2, 2, 2, 2]);
    // an even window is made odd
    assert_eq!(smooth(&vec![0, 3, 6, 9], 20_000), vec![1, 3, 6, 7]);
    assert!(boxcar(&Vec::new(), 3).is_empty());
}

#[test]
fn frames_are_laid_over_a_span() {
    // one second at 16 kHz: 1 + (16000 - 512) / 160 frames
    assert_eq!(span_frames(32_000, RATE, 0, SECOND), Some((0, 97)));
    assert_eq!(span_frames(32_000, RATE, SECOND, 5 * SECOND), Some((16_000, 97)));
    assert_eq!(span_frames(32_000, RATE, 0, 51_999), None);
    assert_eq!(span_frames(32_000, RATE, 0, 52_000), Some((0, 3)));
    assert_eq!(span_frames(32_000, RATE, -SECOND, 52_000), Some((0, 3)));
    assert_eq!(span_frames(32_000, RATE, SECOND, 0), None);
}

#[test]
fn bands_tile_the_spectrum() {
    let mut at = 0;
    for b in 0..BANDS {
        let (lo, hi) = band_bins(b);
        assert_eq!(lo, at);
        assert!(lo < hi);
        at = hi;
    }
    assert_eq!(at, BINS);
}

#[test]
fn resampling_keeps_both_ends() {
    let p = resample_at(0, 10, 4);
    assert_eq!((p.lo, p.num), (0, 0));
    let p = resample_at(3, 10, 4);
    assert_eq!((p.lo, p.hi, p.num), (9, 9, 0));
    let p = resample_at(1, 6, 4);
    assert_eq!((p.lo, p.hi, p.num, p.den), (1, 2, 2, 3));
    let p = resample_at(0, 5, 1);
    assert_eq!((p.lo, p.hi, p.num), (0, 1, 0));
}

#[test]
fn the_transform_order_is_a_pairing() {
    assert_eq!(bit_reversal(3), vec![0, 4, 2, 6, 1, 5, 3, 7]);
    let order = bit_reversal(9);
    assert_eq!(order.len(), 512);
    assert!((0..512).all(|i| order[order[i]] == i));
    assert_eq!(bit_reversal(0), vec![0]);
}

#[test]
fn energy_frames_hop_by_ten_milliseconds() {
    assert_eq!(energy_frames(32_000, RATE), 200);
    assert_eq!(energy_span(0, 32_000, RATE), (0, 512));
    assert_eq!(energy_span(199, 32_000, RATE), (31_840, 32_000));
}
