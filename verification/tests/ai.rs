use elide::ai::capabilities::{describe, next_question, probe, record, Answer, Progress, Wants};
use elide::ai::gates::{
    caption_fix_allowed, letters, phonetic_sim, sim, skeleton, PHONETIC_MIN,
};
use elide::ai::provider::{Capabilities, Ollama, Tier, TEMPERATURE};
use elide::ai::tasks::{
    intelligible, intelligible_prompt, lines_to_ask, proofread_list, worth_checking,
};

fn null_caps() -> Capabilities {
    Capabilities {
        name: "null".to_string(),
        json_mode: false,
        tok_per_sec: 0,
        selection: 0,
        generation: 0,
        tier: Tier::Fallback,
    }
}

#[test]
fn min_not_max_stops_the_hallucination() {
    // the row that motivated using min(): max() let this through at 0.40
    assert!(phonetic_sim("division", "schedules") < PHONETIC_MIN);
    assert!(phonetic_sim("2020", "BrainClean") < PHONETIC_MIN);
}

#[test]
fn real_corrections_survive() {
    assert!(phonetic_sim("division", "duration") >= PHONETIC_MIN);
    assert!(phonetic_sim("blockboard", "block") >= PHONETIC_MIN);
}

#[test]
fn only_single_word_substitutions() {
    assert!(caption_fix_allowed("the division is set", "the duration is set"));
    // two words changed
    assert!(!caption_fix_allowed("the division is set", "a duration is set"));
    // length change
    assert!(!caption_fix_allowed("the division", "the division is set"));
    // keep as heard
    assert!(caption_fix_allowed("anything at all", "anything at all"));
}

#[test]
fn null_provider_flags_nothing() {
    let lines = vec![
        "a b c d e f".to_string(),
        "this line is perfectly fine".to_string(),
    ];
    // the null provider never answers
    let answers = vec![None, None];
    assert!(proofread_list(&null_caps(), &lines, &answers).is_empty());
}

#[test]
fn triage_skips_healthy_lines() {
    assert!(!worth_checking("this line is perfectly fine and readable"));
    assert!(worth_checking("so it is a to be of my"));
}

#[test]
fn similarity_is_exact() {
    assert_eq!(sim("abcd", "abcd"), 1_000_000);
    assert_eq!(sim("", ""), sim("", ""));
    assert_eq!(sim("abcd", "wxyz"), 0);
    assert_eq!(letters("A-1 b!"), "ab");
    assert_eq!(skeleton("Duration"), "drtn");
}

#[test]
fn a_fix_never_changes_how_many_words_there_are() {
    assert!(!caption_fix_allowed("one two three", "one two"));
    assert!(!caption_fix_allowed("one", "one two"));
}

#[test]
fn tiers_follow_the_scores() {
    assert_eq!(Tier::from_scores(850_000, 750_000), Tier::Large);
    assert_eq!(Tier::from_scores(850_000, 749_999), Tier::Mid);
    assert_eq!(Tier::from_scores(750_000, 0), Tier::Mid);
    assert_eq!(Tier::from_scores(749_999, 1_000_000), Tier::Small);
    assert_eq!(Tier::from_scores(600_000, 0), Tier::Small);
    assert_eq!(Tier::from_scores(599_999, 0), Tier::Fallback);
    assert!(Tier::Large.allows_generation() && !Tier::Mid.allows_generation());
    assert!(Tier::Small.allows_selection() && !Tier::Fallback.allows_selection());
}

#[test]
fn the_local_model_has_its_defaults() {
    let o = Ollama::new("m");
    assert_eq!(
        (o.model.as_str(), o.url.as_str(), o.timeout_s),
        ("m", "http://localhost:11434/api/generate", 60)
    );
}

#[test]
fn a_silent_model_is_asked_five_times_and_not_trusted() {
    let mut p = Progress::new();
    let mut asked = 0;
    while let Some(q) = next_question(&p) {
        assert_eq!(q.wants, Wants::Value);
        p = record(p, Answer::Nothing);
        asked += 1;
    }
    assert_eq!(asked, 5);
    let c = probe("null", &p, 0);
    assert_eq!(c.tier, Tier::Fallback);
    assert!(!c.json_mode);
    assert_eq!(c.tok_per_sec, 0);
}

#[test]
fn a_perfect_model_gets_the_top_tier() {
    let mut p = Progress::new();
    let rights = [1, 1, 0, 1, 0, 1];
    let fixes = ["Duration", "READING", "the 20-20-20 rule", "BrainClean"];
    let mut n = 0usize;
    while let Some(q) = next_question(&p) {
        let a = match n {
            0..=4 => {
                assert_eq!(q.prompt, format!("Reply with JSON where value is exactly {}.", n + 1));
                Answer::Number(n as i64 + 1)
            }
            5..=10 => Answer::Number(rights[n - 5]),
            11..=14 => Answer::Text(fixes[n - 11].to_string()),
            _ => {
                assert_eq!((q.wants, q.max_tokens), (Wants::Text, 200));
                Answer::Text("1 2 3 4".to_string())
            }
        };
        p = record(p, a);
        n += 1;
    }
    assert_eq!(n, 16);
    let c = probe("m", &p, 2_000_000);
    assert_eq!((c.selection, c.generation), (1_000_000, 1_000_000));
    assert_eq!(c.tier, Tier::Large);
    assert!(c.json_mode);
    assert_eq!(c.tok_per_sec, 2_000_000);
    assert_eq!(
        describe(&c),
        "m — all tasks enabled including generation. (tier PROVISIONAL — 10 probe items, 30+ \
         needed to trust it)"
    );
}

#[test]
fn one_right_echo_is_enough_to_be_asked_everything() {
    for right in 0..5usize {
        let mut p = Progress::new();
        let mut asked = 0usize;
        while let Some(q) = next_question(&p) {
            assert_eq!(q.temperature, TEMPERATURE);
            let a = if asked == right {
                Answer::Number(right as i64 + 1)
            } else {
                Answer::Nothing
            };
            p = record(p, a);
            asked += 1;
        }
        assert_eq!((asked, p.json_ok), (16, 1));
        let c = probe("m", &p, 1);
        assert_eq!((c.name.as_str(), c.json_mode), ("m", false));
        assert_eq!(c.tier, Tier::from_scores(c.selection, c.generation));
    }
    assert_eq!(TEMPERATURE, 0);
}

#[test]
fn only_risky_lines_are_asked_about() {
    let lines = vec![
        "so it is a to be of my".to_string(),
        "this line is perfectly fine".to_string(),
        "a b c d".to_string(),
    ];
    let caps = Capabilities {
        tier: Tier::Small,
        ..null_caps()
    };
    assert_eq!(lines_to_ask(&caps, &lines), vec![0, 2]);
    assert!(lines_to_ask(&null_caps(), &lines).is_empty());
    // what is said of a line that was not asked about does not matter
    let said = |other| proofread_list(&caps, &lines, &vec![Some(false), other, None]);
    assert_eq!(said(Some(false)), said(None));
    assert_eq!(said(None), vec!["so it is a to be of my"]);
}

#[test]
fn json_mode_takes_four_of_five() {
    let run = |right: usize| {
        let mut p = Progress::new();
        let mut n = 0usize;
        while next_question(&p).is_some() {
            let a = if n < right {
                Answer::Number(n as i64 + 1)
            } else {
                Answer::Text("?".to_string())
            };
            p = record(p, a);
            n += 1;
        }
        probe("m", &p, 1)
    };
    assert!(run(4).json_mode);
    assert!(!run(3).json_mode);
    assert_eq!(run(3).tier, Tier::Fallback);
}

#[test]
fn only_risky_lines_that_the_model_doubts_are_flagged() {
    let caps = Capabilities {
        tier: Tier::Small,
        ..null_caps()
    };
    let lines = vec![
        "so it is a to be of my".to_string(),
        "this line is perfectly fine".to_string(),
        "a b c d".to_string(),
        "x y z".to_string(),
    ];
    let answers = vec![Some(false), Some(false), Some(true), None];
    assert_eq!(proofread_list(&caps, &lines, &answers), vec!["so it is a to be of my"]);
    assert!(intelligible(&caps, None) && !intelligible(&caps, Some(false)));
    assert!(intelligible(&null_caps(), Some(false)));
    assert!(!worth_checking("a b"));
    assert!(intelligible_prompt("L").contains("\n\nLINE: L\n\n"));
}
