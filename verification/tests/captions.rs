use elide::captions::{
    clen, merge, split_after, split_before_keywords, split_pieces, wrap, Word, MAXC,
};
use elide::cues::{caption_lines, group_cues, ts, write_srt};
use elide::plan::{build_plan, Plan, Segment, Speed};
use elide::text::{contains, join, same, split_whitespace, trim, trim_end, trim_symbols};

const SECOND: i64 = 1_000_000;

fn word(text: &str, start: i64, end: i64) -> Word {
    Word {
        text: text.to_string(),
        start,
        end,
        prob: 0,
    }
}

fn whole_plan(us: i64) -> Plan {
    let segs = vec![Segment {
        src_start: 0,
        src_end: us,
        speed: Speed { num: 1, den: 1 },
    }];
    build_plan(&segs, us, 0, String::new()).unwrap()
}

// ---- text -------------------------------------------------------------------

#[test]
fn trimming_knows_all_white_space() {
    assert_eq!(trim("\u{3000} a b\t\n"), "a b");
    assert_eq!(trim_end(" a "), " a");
    assert_eq!(trim_symbols("«été!»"), "été");
    assert_eq!(split_whitespace(" a\u{a0}b  c\n"), vec!["a", "b", "c"]);
    assert!(split_whitespace(" \t").is_empty());
}

#[test]
fn joining_and_searching() {
    assert_eq!(join(&vec!["a".to_string(), "b".to_string()], ", "), "a, b");
    assert_eq!(join(&Vec::new(), ", "), "");
    assert!(contains("hello", "ell"));
    assert!(contains("x", ""));
    assert!(!contains("hel", "hell"));
    assert!(same("é", "é") && !same("é", "e"));
}

// ---- splitting --------------------------------------------------------------

#[test]
fn lengths_are_in_characters() {
    assert_eq!(clen("é—a"), 3);
}

#[test]
fn wrapping_is_greedy() {
    assert_eq!(wrap("aa bb cc dd", 5), vec!["aa bb", "cc dd"]);
    assert_eq!(wrap("a verylongword b", 4), vec!["a", "verylongword", "b"]);
    assert!(wrap("  ", 4).is_empty());
}

#[test]
fn delimiters_stay_on_the_left() {
    assert_eq!(
        split_after("One. Two? v1.2 three", &vec!['.', '?', '!']),
        vec!["One.", "Two?", "v1.2 three"]
    );
}

#[test]
fn keywords_start_a_piece() {
    assert_eq!(
        split_before_keywords("And we go, (but) not because"),
        vec!["And we go,", "(but) not", "because"]
    );
}

#[test]
fn fragments_are_rejoined_while_they_fit() {
    let a = "a".repeat(40);
    let b = "b".repeat(43);
    let c = "c".repeat(40);
    assert_eq!(
        merge(vec![a.clone(), " ".to_string(), b.clone(), c.clone()]),
        vec![format!("{a} {b}"), c]
    );
}

#[test]
fn what_is_rejoined_cannot_be_rejoined_further() {
    let parts: Vec<String> = [" one two ", "", "three", &"x".repeat(80), "y", "\t", "z z", &"w".repeat(99)]
        .iter()
        .map(|s| s.to_string())
        .collect();
    let out = merge(parts);
    assert_eq!(
        out,
        vec![
            "one two three".to_string(),
            format!("{} y", "x".repeat(80)),
            "z z".to_string(),
            "w".repeat(99),
        ]
    );
    assert!(out.windows(2).all(|w| clen(&w[0]) + 1 + clen(&w[1]) > MAXC));
    assert_eq!(merge(out.clone()), out);
}

#[test]
fn long_text_is_split_and_keeps_its_words() {
    let text = "This is the first sentence of the caption. This is the second one, which goes on and on \
                without any real reason, and then stops because it has to stop at some point or other.";
    let pieces = split_pieces(text);
    assert!(pieces.len() > 1);
    assert!(pieces.iter().all(|p| clen(p) <= MAXC));
    let all: Vec<String> = pieces.iter().flat_map(|p| split_whitespace(p)).collect();
    assert_eq!(all, split_whitespace(text));
    assert_eq!(split_pieces("  short "), vec!["short"]);
}

// ---- cues -------------------------------------------------------------------

#[test]
fn sentences_close_cues() {
    let words = vec![
        word(" Hello", 0, 300_000),
        word(" there.", 300_000, 600_000),
        word("  ", 600_000, 700_000),
        word(" Next", SECOND, 1_200_000),
    ];
    let cues = group_cues(&words);
    assert_eq!(cues.len(), 2);
    assert_eq!(
        (cues[0].start, cues[0].end, cues[0].text.as_str()),
        (0, 600_000, "Hello there.")
    );
    assert_eq!(
        (cues[1].start, cues[1].end, cues[1].text.as_str()),
        (SECOND, 1_200_000, "Next")
    );
}

#[test]
fn a_cue_without_a_full_stop_is_closed_by_its_length() {
    let words: Vec<Word> = (0..60).map(|k| word("abcdefghi", k, k + 1)).collect();
    let cues = group_cues(&words);
    // 26 words make 259 characters, the first length of at least 252
    assert_eq!(clen(&cues[0].text), 259);
    assert_eq!(cues.len(), 3);
}

#[test]
fn timestamps_round_to_the_millisecond() {
    assert_eq!(ts(0), "00:00:00,000");
    assert_eq!(ts(-5), "00:00:00,000");
    assert_eq!(ts(3_723_004_500), "01:02:03,005");
    assert_eq!(ts(999_999_499), "00:16:39,999");
}

#[test]
fn an_srt_is_written_in_order() {
    let words = vec![
        word("Hi.", 0, 100_000),
        word("This", 2 * SECOND, 2_200_000),
        word("works.", 2_200_000, 3 * SECOND),
    ];
    let (srt, n) = write_srt(&words, &whole_plan(10 * SECOND), 10 * SECOND);
    assert_eq!(n, 2);
    // the first cue is held to its floor of 0.4 s
    assert_eq!(
        srt,
        "1\n00:00:00,000 --> 00:00:00,400\nHi.\n\n2\n00:00:02,000 --> 00:00:03,000\nThis works.\n\n"
    );
}

#[test]
fn captions_stretch_to_the_measured_duration() {
    let words = vec![word("Fine.", 4 * SECOND, 5 * SECOND)];
    let (srt, _) = write_srt(&words, &whole_plan(10 * SECOND), 20 * SECOND);
    assert_eq!(srt, "1\n00:00:08,000 --> 00:00:10,000\nFine.\n\n");
}

#[test]
fn short_fragments_borrow_reading_time() {
    // 36 characters need two seconds
    let text = "abcdefgh abcdefgh abcdefgh abcdefgh.";
    assert_eq!(clen(text), 36);
    let words = vec![word(text, 0, 500_000)];
    let (srt, _) = write_srt(&words, &whole_plan(10 * SECOND), 10 * SECOND);
    assert!(srt.starts_with("1\n00:00:00,000 --> 00:00:02,000\n"));
    // ... but not past what follows
    let words = vec![word(text, 0, 500_000), word("Go.", SECOND, 2 * SECOND)];
    let (srt, _) = write_srt(&words, &whole_plan(10 * SECOND), 10 * SECOND);
    assert!(srt.starts_with("1\n00:00:00,000 --> 00:00:01,000\n"));
}

/// The times of the entries of a file, in milliseconds.
fn times(srt: &str) -> Vec<(i64, i64)> {
    let ms = |t: &str| {
        let n: Vec<i64> = t.split([':', ',']).map(|x| x.parse().unwrap()).collect();
        ((n[0] * 60 + n[1]) * 60 + n[2]) * 1000 + n[3]
    };
    srt.lines()
        .filter_map(|l| l.split_once(" --> "))
        .map(|(a, b)| (ms(a), ms(b)))
        .collect()
}

#[test]
fn captions_come_one_at_a_time() {
    // sentences that start 0.1 s apart leave no room for the floor
    let words = vec![
        word("One.", 10 * SECOND, 10_050_000),
        word("Two.", 10_100_000, 10_150_000),
        word("Three.", 10_200_000, 12 * SECOND),
        word("Four.", 11 * SECOND, 11_500_000),
    ];
    let (srt, n) = write_srt(&words, &whole_plan(20 * SECOND), 20 * SECOND);
    assert_eq!(n, 4);
    assert_eq!(
        times(&srt),
        vec![(10_000, 10_100), (10_100, 10_200), (10_200, 10_950), (11_000, 11_500)]
    );
}

#[test]
fn a_last_caption_ends_with_the_programme() {
    let text = "This is the very last thing that was said on that day, and it was said in great \
                haste, so that nobody could follow it at all.";
    let words = vec![word(text, 9_990_000, 10 * SECOND)];
    let (srt, n) = write_srt(&words, &whole_plan(10 * SECOND), 10 * SECOND);
    assert!(n >= 2);
    // the cue lasts 0.4 s, and its last fragment starts past the end
    let t = times(&srt);
    assert!(t[n - 1].0 > 10_000);
    assert_eq!(t[n - 1].1, 10_000);
    assert!(t[..n - 1].iter().all(|&(a, b)| a <= b));
    assert!(t.windows(2).all(|w| w[0].1 <= w[1].0));
}

#[test]
fn a_third_line_is_not_shown() {
    let long = "abcdefghijklmnopqrstuvwxyz";
    let words = vec![word(&format!("{long} {long} {long}."), 0, 9 * SECOND)];
    let (srt, n) = write_srt(&words, &whole_plan(10 * SECOND), 10 * SECOND);
    assert_eq!(n, 1);
    assert_eq!(srt, format!("1\n00:00:00,000 --> 00:00:09,000\n{long}\n{long}\n\n"));
}

#[test]
fn captions_say_what_the_transcript_says() {
    let text = "We have added a great many things to this application since the last time that you saw \
                it. Now, let me show you every one of them, because they matter.";
    let words: Vec<Word> = split_whitespace(text)
        .iter()
        .enumerate()
        .map(|(k, t)| word(t, k as i64 * 300_000, k as i64 * 300_000 + 250_000))
        .collect();
    let (srt, n) = write_srt(&words, &whole_plan(20 * SECOND), 20 * SECOND);
    assert!(n >= 2);
    let said: Vec<String> = srt
        .split("\n\n")
        .flat_map(|cue| cue.lines().skip(2).flat_map(|l| split_whitespace(l)).collect::<Vec<_>>())
        .collect();
    assert_eq!(said, split_whitespace(text));
}

#[test]
fn caption_lines_are_the_third_of_each_cue() {
    let srt = "1\n00:00:00,000 --> 00:00:00,400\nHi.\n\n2\n00:00:02,000 --> 00:00:03,000\nThis\nworks.\n\n";
    assert_eq!(caption_lines(srt), vec!["Hi.", "This"]);
    assert!(caption_lines("").is_empty());
    assert!(caption_lines("1\n2").is_empty());
}
