use elide::ai::provider::{Capabilities, Tier};
use elide::policy::{apply_explicit, genre_prompt, DeadAir, Genre, Policy};

#[test]
fn out_of_range_values_are_clamped_not_honoured() {
    let mut p = Policy {
        max_speed: 999_000_000,
        pause_floor_us: 0,
        target_lufs: 0,
        ..Default::default()
    };
    p.clamp();
    assert_eq!(p.max_speed, 20_000_000);
    assert_eq!(p.pause_floor_us, 300_000);
    assert_eq!(p.target_lufs, -14_000_000);
}

#[test]
fn no_provider_gives_defaults() {
    let p = Policy::resolve("anything at all", None);
    assert_eq!(p.dead_air, DeadAir::Speed);
    assert!(p.remove_disfluencies);
    assert!(p.source.contains("defaults"));
}

/// The worked-example table, row by row.
#[test]
fn genre_table_matches_the_spec() {
    let demo = Policy::from_genre(Genre::Demo);
    assert!(demo.expect_screen, "demo: freeze detection on");
    assert!(demo.remove_disfluencies, "demo: disfluencies removed");
    assert_eq!(demo.target_lufs, -14_000_000);

    let talk = Policy::from_genre(Genre::Talk);
    assert!(!talk.expect_screen, "talk: dead air from audio only");
    assert!(talk.remove_disfluencies, "talk: disfluencies removed");
    assert!(
        talk.pause_floor_us > demo.pause_floor_us,
        "talk: pause floor higher, a speaker's pauses are rhetorical"
    );

    let pod = Policy::from_genre(Genre::Interview);
    assert!(!pod.remove_disfluencies, "podcast: disfluencies OFF");
    assert_eq!(pod.dead_air, DeadAir::Cut, "podcast: Cut, not Speed");
    assert_eq!(pod.target_lufs, -16_000_000);

    let game = Policy::from_genre(Genre::Gameplay);
    assert!(game.expect_screen, "gameplay: freeze detection on");
    assert!(!game.remove_disfluencies, "gameplay: disfluencies off");
    assert_eq!(game.max_speed, 20_000_000, "gameplay: max_speed high");
}

#[test]
fn chapters_are_on_for_a_demo_alone() {
    assert!(Policy::from_genre(Genre::Demo).chapters);
    assert!(!Policy::default().chapters);
    for g in [Genre::Talk, Genre::Interview, Genre::Gameplay, Genre::Other] {
        assert!(!Policy::from_genre(g).chapters);
    }
}

/// A video that could not be placed is edited on defaults.
#[test]
fn unclassified_is_byte_identical_to_defaults() {
    let d = Policy::default();
    let o = Policy::from_genre(Genre::Other);
    assert_eq!(o.remove_disfluencies, d.remove_disfluencies);
    assert_eq!(o.dead_air, d.dead_air);
    assert_eq!(o.max_speed, d.max_speed);
    assert_eq!(o.pause_floor_us, d.pause_floor_us);
    assert_eq!(o.target_lufs, d.target_lufs);
    assert_eq!(o.expect_screen, d.expect_screen);
    assert_eq!(o.captions, d.captions);
}

#[test]
fn stated_loudness_beats_the_genre() {
    // podcast would give -16; the description overrules it
    let mut p = Policy::from_genre(Genre::Interview);
    apply_explicit(&mut p, "podcast interview, deliver at -20 LUFS");
    assert_eq!(p.target_lufs, -20_000_000);
}

#[test]
fn stated_loudness_reads_the_number_next_to_the_unit() {
    let mut p = Policy::default();
    apply_explicit(&mut p, "a 20 minute talk at -16 LUFS");
    assert_eq!(p.target_lufs, -16_000_000);
}

#[test]
fn an_out_of_range_stated_loudness_is_ignored() {
    let mut p = Policy::default();
    let fired = apply_explicit(&mut p, "master it at -60 LUFS");
    assert_eq!(p.target_lufs, -14_000_000, "out of range, so the default stands");
    assert!(fired.is_empty());
}

#[test]
fn captions_can_be_switched_off_by_the_description() {
    let mut p = Policy::default();
    apply_explicit(&mut p, "demo of my app, no subtitles please");
    assert!(!p.captions);
}

fn caps(tier: Tier) -> Capabilities {
    Capabilities {
        name: "m".to_string(),
        json_mode: true,
        tok_per_sec: 0,
        selection: 0,
        generation: 0,
        tier,
    }
}

#[test]
fn a_pick_settles_the_genre() {
    let p = Policy::resolve("a chat", Some((&caps(Tier::Mid), Some(2))));
    assert_eq!(p.dead_air, DeadAir::Cut);
    assert_eq!(p.source, "interview via m");
    let p = Policy::resolve("a chat", Some((&caps(Tier::Mid), Some(4))));
    assert_eq!(p.source, "defaults (m could not classify it)");
    let p = Policy::resolve("a chat", Some((&caps(Tier::Mid), None)));
    assert_eq!(p.source, "defaults (m could not classify it)");
    let p = Policy::resolve("a chat", Some((&caps(Tier::Fallback), Some(2))));
    assert_eq!(p.source, "defaults (m unusable)");
    assert_eq!(p.dead_air, DeadAir::Speed);
}

#[test]
fn indices_out_of_the_table_are_other() {
    assert_eq!(Genre::from_index(-1), Genre::Other);
    assert_eq!(Genre::from_index(3), Genre::Gameplay);
    assert_eq!(Genre::Other.name(), "unclassified");
}

#[test]
fn clamping_twice_changes_nothing_more() {
    let mut p = Policy {
        max_speed: 0,
        pause_floor_us: 9_000_000,
        target_lufs: -40_000_000,
        ..Default::default()
    };
    p.clamp();
    assert_eq!((p.max_speed, p.pause_floor_us, p.target_lufs), (1_000_000, 1_500_000, -23_000_000));
    p.clamp();
    assert_eq!((p.max_speed, p.pause_floor_us, p.target_lufs), (1_000_000, 1_500_000, -23_000_000));
    let pace = p.pacing();
    assert_eq!((pace.max_speed, pace.pause_floor_us), (1_000_000, 1_500_000));
}

#[test]
fn what_is_stated_is_named_in_the_source() {
    let p = Policy::resolve("deliver at -18 LUFS", None);
    assert_eq!(p.target_lufs, -18_000_000);
    assert!(p.source.starts_with("defaults (--no-ai); stated: "));
}

#[test]
fn the_summary_is_one_line() {
    let s = Policy::default().summary();
    assert!(s.starts_with("disfluencies on  dead air Speed  max speed 20x  pause floor 1.00s"));
    assert!(s.ends_with("[defaults]"));
}

#[test]
fn the_genre_is_asked_by_index() {
    let q = genre_prompt("my demo");
    assert!(q.starts_with("Pick exactly one option by index.\n\nSITUATION: my demo\n\nQUESTION:"));
}
