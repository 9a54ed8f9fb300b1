//! Prompt to policy, in one step.
//!
//! **THE PROMPT SETS POLICY. THE PROMPT NEVER TOUCHES A GUARD.**
//!
//! Policy is how the edit should feel. Guards are what make a cut safe; they
//! are fixed and nothing here can reach them.
//!
//! The model is asked one question only, what kind of video this is. What
//! follows from the answer is a table in code. The policy is settled once, up
//! front; after that the pipeline is deterministic.
use vstd::prelude::*;

use crate::ai::provider::{Capabilities, Tier};
use crate::num::{fixed, micros, parse_micros, shortest, show_fixed, show_shortest};
use crate::plan::Pacing;
use crate::text::{
    chars_of, contains, find_from, first_at, is_ascii_digit, is_space, join, joined,
    law_the_first_occurrence_is_found, law_trimming_the_end_takes_only_space, lower, occurs,
    occurs_at, text_of, trim_end, trimmed_end, views,
};

pub use crate::plan::DeadAir;

verus! {

/// The kinds of video the policy table knows about. `Other` means that the
/// model could not place it, and everything stays on defaults.
#[derive(Debug, Clone, Copy, PartialEq, Eq, Structural)]
pub enum Genre {
    Demo,
    Talk,
    Interview,
    Gameplay,
    Other,
}

impl Genre {
    pub open spec fn spec_from_index(i: int) -> Genre {
        if i == 0 {
            Genre::Demo
        } else if i == 1 {
            Genre::Talk
        } else if i == 2 {
            Genre::Interview
        } else if i == 3 {
            Genre::Gameplay
        } else {
            Genre::Other
        }
    }

    pub fn from_index(i: i64) -> (g: Genre)
        ensures
            g == Genre::spec_from_index(i as int),
    {
        match i {
            0 => Genre::Demo,
            1 => Genre::Talk,
            2 => Genre::Interview,
            3 => Genre::Gameplay,
            _ => Genre::Other,
        }
    }

    pub open spec fn spec_name(self) -> Seq<char> {
        match self {
            Genre::Demo => "demo"@,
            Genre::Talk => "talk"@,
            Genre::Interview => "interview"@,
            Genre::Gameplay => "gameplay"@,
            Genre::Other => "unclassified"@,
        }
    }

    pub fn name(&self) -> (s: &'static str)
        ensures
            s@ == self.spec_name(),
    {
        match self {
            Genre::Demo => "demo",
            Genre::Talk => "talk",
            Genre::Interview => "interview",
            Genre::Gameplay => "gameplay",
            Genre::Other => "unclassified",
        }
    }
}

/// How the edit should feel.
#[derive(Debug)]
pub struct Policy {
    pub remove_disfluencies: bool,
    pub dead_air: DeadAir,
    /// Upper bound on a speed-up, in millionths.
    pub max_speed: i64,
    /// Shortest pause that is touched.
    pub pause_floor_us: i64,
    /// Delivery loudness, in millionths of a unit.
    pub target_lufs: i64,
    pub expect_screen: bool,
    pub captions: bool,
    pub chapters: bool,
    /// How this was arrived at.
    pub source: String,
}

/// What a policy asks for, apart from how it was arrived at.
pub struct Settings {
    pub remove_disfluencies: bool,
    pub dead_air: DeadAir,
    pub max_speed: int,
    pub pause_floor_us: int,
    pub target_lufs: int,
    pub expect_screen: bool,
    pub captions: bool,
    pub chapters: bool,
}

pub open spec fn default_settings() -> Settings {
    Settings {
        remove_disfluencies: true,
        dead_air: DeadAir::Speed,
        max_speed: 20_000_000,
        pause_floor_us: 1_000_000,
        target_lufs: -14_000_000,
        expect_screen: true,
        captions: true,
        chapters: false,
    }
}

/// The policy for each kind of video.
///
/// | kind | what changes |
/// | --- | --- |
/// | demo | chapters on; freeze detection, disfluencies and -14 LUFS as ever |
/// | talk | no screen, so dead air comes from audio; pause floor higher |
/// | interview | disfluencies stay, dead air is cut, -16 LUFS, no screen |
/// | gameplay | disfluencies stay, speed-ups up to 20 |
pub open spec fn genre_settings(g: Genre) -> Settings {
    let base = default_settings();
    match g {
        Genre::Talk => Settings { expect_screen: false, pause_floor_us: 1_500_000, ..base },
        Genre::Interview => Settings {
            remove_disfluencies: false,
            dead_air: DeadAir::Cut,
            target_lufs: -16_000_000,
            expect_screen: false,
            ..base
        },
        Genre::Gameplay => Settings { remove_disfluencies: false, max_speed: 20_000_000, ..base },
        Genre::Demo => Settings { chapters: true, ..base },
        Genre::Other => base,
    }
}

pub open spec fn held_to(x: int, lo: int, hi: int) -> int {
    if x < lo {
        lo
    } else if x > hi {
        hi
    } else {
        x
    }
}

/// Every number within its documented range.
pub open spec fn clamped(s: Settings) -> Settings {
    Settings {
        max_speed: held_to(s.max_speed, 1_000_000, 20_000_000),
        pause_floor_us: held_to(s.pause_floor_us, 300_000, 1_500_000),
        target_lufs: held_to(s.target_lufs, -23_000_000, -14_000_000),
        ..s
    }
}

pub open spec fn in_range(s: Settings) -> bool {
    &&& 1_000_000 <= s.max_speed <= 20_000_000
    &&& 300_000 <= s.pause_floor_us <= 1_500_000
    &&& -23_000_000 <= s.target_lufs <= -14_000_000
}

fn hold_to(x: i64, lo: i64, hi: i64) -> (r: i64)
    ensures
        r == held_to(x as int, lo as int, hi as int),
{
    if x < lo {
        lo
    } else if x > hi {
        hi
    } else {
        x
    }
}

impl Default for Policy {
    fn default() -> (p: Self)
        ensures
            p.settings() == default_settings(),
            p.source@ == "defaults"@,
    {
        Policy {
            remove_disfluencies: true,
            dead_air: DeadAir::Speed,
            max_speed: 20_000_000,
            pause_floor_us: 1_000_000,
            target_lufs: -14_000_000,
            expect_screen: true,
            captions: true,
            chapters: false,
            source: "defaults".to_string(),
        }
    }
}

impl Policy {
    pub open spec fn settings(&self) -> Settings {
        Settings {
            remove_disfluencies: self.remove_disfluencies,
            dead_air: self.dead_air,
            max_speed: self.max_speed as int,
            pause_floor_us: self.pause_floor_us as int,
            target_lufs: self.target_lufs as int,
            expect_screen: self.expect_screen,
            captions: self.captions,
            chapters: self.chapters,
        }
    }

    /// The policy for a kind of video.
    pub fn from_genre(g: Genre) -> (p: Policy)
        ensures
            p.settings() == genre_settings(g),
            p.source@ == "defaults"@,
    {
        let mut p = Policy::default();
        match g {
            Genre::Demo => {
                p.chapters = true;
            },
            Genre::Talk => {
                p.expect_screen = false;
                p.pause_floor_us = 1_500_000;
            },
            Genre::Interview => {
                p.remove_disfluencies = false;
                p.dead_air = DeadAir::Cut;
                p.target_lufs = -16_000_000;
                p.expect_screen = false;
            },
            Genre::Gameplay => {
                p.remove_disfluencies = false;
                p.max_speed = 20_000_000;
            },
            Genre::Other => {},
        }
        p
    }

    /// Brings every number into its documented range. A value outside is
    /// replaced by the bound. The only place where a policy number becomes
    /// legal.
    pub fn clamp(&mut self)
        ensures
            final(self).settings() == clamped(old(self).settings()),
            in_range(final(self).settings()),
            final(self).source@ == old(self).source@,
    {
        self.max_speed = hold_to(self.max_speed, 1_000_000, 20_000_000);
        self.pause_floor_us = hold_to(self.pause_floor_us, 300_000, 1_500_000);
        self.target_lufs = hold_to(self.target_lufs, -23_000_000, -14_000_000);
    }

    /// The subset the planner is allowed to see.
    pub fn pacing(&self) -> (p: Pacing)
        ensures
            p.dead_air == self.dead_air,
            p.max_speed == self.max_speed,
            p.pause_floor_us == self.pause_floor_us,
            in_range(self.settings()) ==> p.wf(),
    {
        Pacing {
            dead_air: self.dead_air,
            max_speed: self.max_speed,
            pause_floor_us: self.pause_floor_us,
        }
    }
}

// ---------------------------------------------------------------------------
// What the description says outright
// ---------------------------------------------------------------------------
/// The description asks for no captions.
pub open spec fn says_no_captions(text: Seq<char>) -> bool {
    ||| occurs(text, "no captions"@)
    ||| occurs(text, "no subtitles"@)
    ||| occurs(text, "without captions"@)
    ||| occurs(text, "without subtitles"@)
}

/// The description asks to keep fillers.
pub open spec fn says_keep_fillers(text: Seq<char>) -> bool {
    ||| occurs(text, "keep the ums"@)
    ||| occurs(text, "keep the filler"@)
    ||| occurs(text, "don't remove filler"@)
    ||| occurs(text, "do not remove filler"@)
}

pub open spec fn is_number_char(c: char) -> bool {
    is_ascii_digit(c) || c == '.' || c == '-'
}

/// Where the run of number characters that ends at `to` starts.
pub open spec fn number_start(s: Seq<char>, to: int) -> int
    decreases to,
{
    if to > 0 && is_number_char(s[to - 1]) {
        number_start(s, to - 1)
    } else {
        to
    }
}

/// The number right before the first mention of the unit, if it is one that
/// may be asked for.
pub open spec fn stated_lufs(text: Seq<char>) -> Option<int> {
    match first_at(text, "lufs"@, 0) {
        None => None,
        Some(at) => {
            let before = trimmed_end(text.take(at));
            let n = before.len() as int;
            match micros(before.subrange(number_start(before, n), n)) {
                Some(v) => if -23_000_000 <= v <= -14_000_000 {
                    Some(v)
                } else {
                    None
                },
                None => None,
            }
        },
    }
}

/// The settings once the description has been read for what it says outright.
pub open spec fn with_explicit(s: Settings, text: Seq<char>) -> Settings {
    Settings {
        captions: s.captions && !says_no_captions(text),
        target_lufs: match stated_lufs(text) {
            Some(v) => v,
            None => s.target_lufs,
        },
        remove_disfluencies: s.remove_disfluencies && !says_keep_fillers(text),
        ..s
    }
}

/// What was found in the description, in words.
pub open spec fn fired(text: Seq<char>) -> Seq<Seq<char>> {
    let a = if says_no_captions(text) {
        seq!["captions off"@]
    } else {
        Seq::empty()
    };
    let b = match stated_lufs(text) {
        Some(v) => a.push(shortest(v) + " LUFS"@),
        None => a,
    };
    if says_keep_fillers(text) {
        b.push("disfluencies off"@)
    } else {
        b
    }
}

fn find_stated_lufs(text: &str) -> (r: Option<i64>)
    ensures
        match r {
            Some(v) => stated_lufs(text@) == Some(v as int) && -23_000_000 <= v <= -14_000_000,
            None => stated_lufs(text@) is None,
        },
{
    let v = chars_of(text);
    match find_from(&v, "lufs", 0) {
        None => None,
        Some(at) => {
            let head = text_of(&v, 0, at);
            assert(head@ =~= text@.take(at as int));
            let before = chars_of(trim_end(head.as_str()).as_str());
            let n: usize = before.len();
            let mut from: usize = n;
            while from > 0 && (('0' <= before[from - 1] && before[from - 1] <= '9') || before[from
                - 1] == '.' || before[from - 1] == '-')
                invariant
                    from <= n == before@.len(),
                    number_start(before@, n as int) == number_start(before@, from as int),
                decreases from,
            {
                from -= 1;
            }
            let number = text_of(&before, from, n);
            match parse_micros(number.as_str()) {
                Some(x) => {
                    if -23_000_000 <= x && x <= -14_000_000 {
                        Some(x)
                    } else {
                        None
                    }
                },
                None => None,
            }
        },
    }
}

/// Deterministic overrides, read straight from the description with no model.
/// Returns what was found, in words.
pub fn apply_explicit(p: &mut Policy, prompt: &str) -> (out: Vec<String>)
    ensures
        final(p).settings() == with_explicit(old(p).settings(), lower(prompt@)),
        final(p).source@ == old(p).source@,
        views(out@) == fired(lower(prompt@)),
{
    let text = prompt.to_lowercase();
    let mut out: Vec<String> = Vec::new();
    assert(views(out@) =~= Seq::<Seq<char>>::empty());
    if contains(text.as_str(), "no captions") || contains(text.as_str(), "no subtitles")
        || contains(text.as_str(), "without captions") || contains(
        text.as_str(),
        "without subtitles",
    ) {
        p.captions = false;
        out.push("captions off".to_string());
        assert(views(out@) =~= seq!["captions off"@]);
    }
    let ghost a = views(out@);
    match find_stated_lufs(text.as_str()) {
        Some(v) => {
            p.target_lufs = v;
            let mut word = show_shortest(v);
            word.append(" LUFS");
            out.push(word);
            assert(views(out@) =~= a.push(shortest(v as int) + " LUFS"@));
        },
        None => {},
    }
    let ghost b = views(out@);
    if contains(text.as_str(), "keep the ums") || contains(text.as_str(), "keep the filler")
        || contains(text.as_str(), "don't remove filler") || contains(
        text.as_str(),
        "do not remove filler",
    ) {
        p.remove_disfluencies = false;
        out.push("disfluencies off".to_string());
        assert(views(out@) =~= b.push("disfluencies off"@));
    }
    out
}

// ---------------------------------------------------------------------------
// Resolving
// ---------------------------------------------------------------------------
/// The question put to the model: one pick, with a way to abstain.
pub fn genre_prompt(prompt: &str) -> (r: String)
    ensures
        r@ == "Pick exactly one option by index.\n\nSITUATION: "@ + prompt@
            + "\n\nQUESTION: What kind of video is this?\n\nOPTIONS: 0 = a screen recording, app demo or software tutorial; 1 = a conference talk, lecture or presentation to an audience; 2 = an interview, podcast or conversation between people; 3 = gameplay or long-form footage with commentary; 4 = none of these\n\nReply JSON."@,
{
    let mut r = String::new();
    r.append("Pick exactly one option by index.\n\nSITUATION: ");
    r.append(prompt);
    r.append("\n\nQUESTION: What kind of video is this?\n\nOPTIONS: 0 = a screen recording, app demo or software tutorial; 1 = a conference talk, lecture or presentation to an audience; 2 = an interview, podcast or conversation between people; 3 = gameplay or long-form footage with commentary; 4 = none of these\n\nReply JSON.");
    assert(r@ =~= "Pick exactly one option by index.\n\nSITUATION: "@ + prompt@
        + "\n\nQUESTION: What kind of video is this?\n\nOPTIONS: 0 = a screen recording, app demo or software tutorial; 1 = a conference talk, lecture or presentation to an audience; 2 = an interview, podcast or conversation between people; 3 = gameplay or long-form footage with commentary; 4 = none of these\n\nReply JSON."@);
    r
}

/// The kind of video that the model's pick stands for; `Other` when there is no
/// pick or the model may not be asked.
pub open spec fn picked(tier: Tier, pick: Option<i64>) -> Genre {
    if tier != Tier::Fallback && pick is Some {
        Genre::spec_from_index(pick.unwrap() as int)
    } else {
        Genre::Other
    }
}

/// How the settings were arrived at, before the description's own words.
pub open spec fn origin(name: Seq<char>, tier: Tier, pick: Option<i64>) -> Seq<char> {
    if tier == Tier::Fallback {
        "defaults ("@ + name + " unusable)"@
    } else if picked(tier, pick) == Genre::Other {
        "defaults ("@ + name + " could not classify it)"@
    } else {
        picked(tier, pick).spec_name() + " via "@ + name
    }
}

/// The origin with what the description says outright.
pub open spec fn with_stated(why: Seq<char>, found: Seq<Seq<char>>) -> Seq<char> {
    if found.len() == 0 {
        why
    } else {
        why + "; stated: "@ + joined(found, ", "@)
    }
}

impl Policy {
    /// Settles the policy. `model` is what is known of the model and which
    /// index it picked, `None` for no model at all. Whenever the model is
    /// absent, unusable or out of contract, the defaults stand.
    pub fn resolve(prompt: &str, model: Option<(&Capabilities, Option<i64>)>) -> (p: Policy)
        ensures
            ({
                let genre = match model {
                    Some(m) => picked(m.0.tier, m.1),
                    None => Genre::Other,
                };
                let why = match model {
                    Some(m) => origin(m.0.name@, m.0.tier, m.1),
                    None => "defaults (--no-ai)"@,
                };
                &&& p.settings() == clamped(with_explicit(genre_settings(genre), lower(prompt@)))
                &&& p.source@ == with_stated(why, fired(lower(prompt@)))
            }),
            in_range(p.settings()),
    {
        let mut p = Policy::default();
        let mut why = String::new();
        match model {
            None => {
                why.append("defaults (--no-ai)");
                assert(why@ =~= "defaults (--no-ai)"@);
            },
            Some((caps, pick)) => {
                if caps.tier.allows_selection() {
                    let g = match pick {
                        Some(i) => Genre::from_index(i),
                        None => Genre::Other,
                    };
                    if g == Genre::Other {
                        why.append("defaults (");
                        why.append(caps.name.as_str());
                        why.append(" could not classify it)");
                    } else {
                        p = Policy::from_genre(g);
                        why.append(g.name());
                        why.append(" via ");
                        why.append(caps.name.as_str());
                    }
                } else {
                    why.append("defaults (");
                    why.append(caps.name.as_str());
                    why.append(" unusable)");
                }
                assert(why@ =~= origin(caps.name@, caps.tier, pick));
            },
        }
        let ghost base = why@;
        let found = apply_explicit(&mut p, prompt);
        if found.len() > 0 {
            why.append("; stated: ");
            why.append(join(&found, ", ").as_str());
        }
        assert(why@ =~= with_stated(base, views(found@)));
        p.clamp();
        p.source = why;
        p
    }

    /// The policy on one line.
    pub fn summary(&self) -> (r: String)
        ensures
            r@ == summary_of(self.settings(), self.source@),
    {
        let mut r = String::new();
        r.append("disfluencies ");
        r.append(
            if self.remove_disfluencies {
                "on"
            } else {
                "off"
            },
        );
        r.append("  dead air ");
        r.append(
            match self.dead_air {
                DeadAir::Cut => "Cut",
                DeadAir::Speed => "Speed",
                DeadAir::Keep => "Keep",
            },
        );
        r.append("  max speed ");
        r.append(show_fixed(self.max_speed, 0).as_str());
        r.append("x  pause floor ");
        r.append(show_fixed(self.pause_floor_us, 2).as_str());
        r.append("s  target ");
        r.append(show_fixed(self.target_lufs, 1).as_str());
        r.append(" LUFS  screen ");
        r.append(yes_no(self.expect_screen));
        r.append("  captions ");
        r.append(yes_no(self.captions));
        r.append("  [");
        r.append(self.source.as_str());
        r.append("]");
        assert(r@ =~= summary_of(self.settings(), self.source@));
        r
    }
}

pub open spec fn bool_text(b: bool) -> Seq<char> {
    if b {
        "true"@
    } else {
        "false"@
    }
}

fn yes_no(b: bool) -> (s: &'static str)
    ensures
        s@ == bool_text(b),
{
    if b {
        "true"
    } else {
        "false"
    }
}

pub open spec fn summary_of(s: Settings, source: Seq<char>) -> Seq<char> {
    "disfluencies "@ + (if s.remove_disfluencies {
        "on"@
    } else {
        "off"@
    }) + "  dead air "@ + (match s.dead_air {
        DeadAir::Cut => "Cut"@,
        DeadAir::Speed => "Speed"@,
        DeadAir::Keep => "Keep"@,
    }) + "  max speed "@ + fixed(s.max_speed, 0) + "x  pause floor "@ + fixed(s.pause_floor_us, 2)
        + "s  target "@ + fixed(s.target_lufs, 1) + " LUFS  screen "@ + bool_text(s.expect_screen)
        + "  captions "@ + bool_text(s.captions) + "  ["@ + source + "]"@
}

// ---------------------------------------------------------------------------
// Laws
// ---------------------------------------------------------------------------
/// The model failing never changes the edit: with no pick, or one the table
/// does not know, the settings are those of no model at all.
pub proof fn law_no_pick_means_defaults(tier: Tier, pick: Option<i64>)
    requires
        tier == Tier::Fallback || pick is None || !(0 <= pick.unwrap() <= 3),
    ensures
        genre_settings(picked(tier, pick)) == default_settings(),
{
}

/// A loudness stated in the description beats every table entry, and bringing
/// the policy into range does not move it.
pub proof fn law_stated_loudness_wins(g: Genre, text: Seq<char>)
    requires
        stated_lufs(text) is Some,
    ensures
        clamped(with_explicit(genre_settings(g), text)).target_lufs == stated_lufs(text).unwrap(),
{
}

/// Bringing a policy into range changes nothing that is already in range, and
/// doing it twice is doing it once.
pub proof fn law_clamp_settles(s: Settings)
    ensures
        in_range(clamped(s)),
        clamped(clamped(s)) == clamped(s),
        in_range(s) ==> clamped(s) == s,
{
}

/// Every table entry is in range as it stands.
pub proof fn law_table_is_in_range(g: Genre)
    ensures
        in_range(genre_settings(g)),
{
}

/// The kind of video changes what its row of the table names and nothing else.
/// A demo gets chapters. A talk shows no screen and keeps pauses of up to a
/// second and a half. An interview shows no screen, keeps its disfluencies, has
/// its dead air cut and is delivered at -16. Gameplay keeps its disfluencies.
/// Everything else is as in the defaults: dead air is sped up, never kept, by at
/// most twenty, from a second on, at -14, with captions.
pub proof fn law_a_kind_changes_only_its_row(g: Genre)
    ensures
        genre_settings(g).chapters <==> g == Genre::Demo,
        genre_settings(g).expect_screen <==> g != Genre::Talk && g != Genre::Interview,
        genre_settings(g).remove_disfluencies <==> g != Genre::Interview && g != Genre::Gameplay,
        genre_settings(g).dead_air == DeadAir::Cut <==> g == Genre::Interview,
        genre_settings(g).dead_air == DeadAir::Speed <==> g != Genre::Interview,
        genre_settings(g).pause_floor_us == (if g == Genre::Talk {
            1_500_000int
        } else {
            1_000_000
        }),
        genre_settings(g).target_lufs == (if g == Genre::Interview {
            -16_000_000int
        } else {
            -14_000_000
        }),
        genre_settings(g).max_speed == 20_000_000,
        genre_settings(g).captions,
{
}

/// The options are offered in the order in which a pick is read, and the last of
/// them, like any other number, abstains.
pub proof fn law_a_pick_is_read_by_its_number(i: int)
    ensures
        Genre::spec_from_index(i) == Genre::Demo <==> i == 0,
        Genre::spec_from_index(i) == Genre::Talk <==> i == 1,
        Genre::spec_from_index(i) == Genre::Interview <==> i == 2,
        Genre::spec_from_index(i) == Genre::Gameplay <==> i == 3,
        Genre::spec_from_index(i) == Genre::Other <==> i < 0 || i > 3,
{
}

/// A usable model's pick is what counts, and only then.
pub proof fn law_only_a_usable_model_picks(tier: Tier, pick: Option<i64>)
    ensures
        tier == Tier::Fallback ==> picked(tier, pick) == Genre::Other,
        pick is None ==> picked(tier, pick) == Genre::Other,
        tier != Tier::Fallback && pick is Some ==> picked(tier, pick) == Genre::spec_from_index(
            pick.unwrap() as int,
        ),
{
}

/// Words in the description can switch captions and the removal of disfluencies
/// off, never on, and can move the loudness within its range. They reach nothing
/// else: not how dead air is handled, not the speed, not the pause floor.
pub proof fn law_words_switch_off_only_what_they_name(s: Settings, text: Seq<char>)
    ensures
        with_explicit(s, text).dead_air == s.dead_air,
        with_explicit(s, text).max_speed == s.max_speed,
        with_explicit(s, text).pause_floor_us == s.pause_floor_us,
        with_explicit(s, text).expect_screen == s.expect_screen,
        with_explicit(s, text).chapters == s.chapters,
        with_explicit(s, text).captions <==> s.captions && !occurs(text, "no captions"@) && !occurs(
            text,
            "no subtitles"@,
        ) && !occurs(text, "without captions"@) && !occurs(text, "without subtitles"@),
        with_explicit(s, text).remove_disfluencies <==> s.remove_disfluencies && !occurs(
            text,
            "keep the ums"@,
        ) && !occurs(text, "keep the filler"@) && !occurs(text, "don't remove filler"@) && !occurs(
            text,
            "do not remove filler"@,
        ),
        with_explicit(s, text).target_lufs == s.target_lufs || -23_000_000 <= with_explicit(
            s,
            text,
        ).target_lufs <= -14_000_000,
        !occurs(text, "lufs"@) ==> with_explicit(s, text).target_lufs == s.target_lufs,
{
    if !occurs(text, "lufs"@) {
        law_the_first_occurrence_is_found(text, "lufs"@, 0);
    }
}

/// The run of number characters before `to` is all number characters, and does
/// not reach further.
proof fn lemma_number_start(s: Seq<char>, to: int)
    requires
        0 <= to <= s.len(),
    ensures
        0 <= number_start(s, to) <= to,
        forall|k: int| number_start(s, to) <= k < to ==> is_number_char(#[trigger] s[k]),
        number_start(s, to) > 0 ==> !is_number_char(s[number_start(s, to) - 1]),
    decreases to,
{
    if to > 0 && is_number_char(s[to - 1]) {
        lemma_number_start(s, to - 1);
    }
}

/// A loudness is stated only where the description has a number in range right
/// before the first mention of the unit: all of the digits, points and dashes
/// that end there, with nothing but space between.
pub proof fn law_stated_loudness_is_the_number_before_the_unit(text: Seq<char>) -> (at: (
    int,
    int,
    int,
))
    requires
        stated_lufs(text) is Some,
    ensures
        ({
            let (from, to, unit) = at;
            &&& 0 <= from <= to <= unit <= text.len()
            &&& occurs_at(text, "lufs"@, unit)
            &&& forall|k: int| 0 <= k < unit ==> !#[trigger] occurs_at(text, "lufs"@, k)
            &&& forall|k: int| to <= k < unit ==> is_space(#[trigger] text[k])
            &&& to > 0 ==> !is_space(text[to - 1])
            &&& forall|k: int|
                from <= k < to ==> {
                    let c = #[trigger] text[k];
                    '0' <= c <= '9' || c == '.' || c == '-'
                }
            &&& from > 0 ==> {
                let c = text[from - 1];
                !('0' <= c <= '9') && c != '.' && c != '-'
            }
            &&& micros(text.subrange(from, to)) == stated_lufs(text)
            &&& -23_000_000 <= stated_lufs(text).unwrap() <= -14_000_000
        }),
{
    law_the_first_occurrence_is_found(text, "lufs"@, 0);
    let unit = first_at(text, "lufs"@, 0).unwrap();
    let head = text.take(unit);
    law_trimming_the_end_takes_only_space(head);
    let before = trimmed_end(head);
    let to = before.len() as int;
    lemma_number_start(before, to);
    let from = number_start(before, to);
    assert(before =~= text.take(to));
    assert(before.subrange(from, to) =~= text.subrange(from, to));
    assert forall|k: int| to <= k < unit implies is_space(#[trigger] text[k]) by {
        assert(head[k] == text[k]);
    }
    assert forall|k: int| from <= k < to implies {
        let c = #[trigger] text[k];
        '0' <= c <= '9' || c == '.' || c == '-'
    } by {
        assert(is_number_char(before[k]));
    }
    if from > 0 {
        assert(!is_number_char(before[from - 1]));
    }
    (from, to, unit)
}

/// Every number of a policy ends up in its documented range, on the value of the
/// range that is nearest to what was asked for, and nothing else is touched.
pub proof fn law_numbers_are_brought_into_range(s: Settings)
    ensures
        ({
            let c = clamped(s);
            &&& 1_000_000 <= c.max_speed <= 20_000_000
            &&& 300_000 <= c.pause_floor_us <= 1_500_000
            &&& -23_000_000 <= c.target_lufs <= -14_000_000
            &&& 1_000_000 <= s.max_speed <= 20_000_000 ==> c.max_speed == s.max_speed
            &&& 300_000 <= s.pause_floor_us <= 1_500_000 ==> c.pause_floor_us == s.pause_floor_us
            &&& -23_000_000 <= s.target_lufs <= -14_000_000 ==> c.target_lufs == s.target_lufs
            &&& s.max_speed < 1_000_000 ==> c.max_speed == 1_000_000
            &&& s.max_speed > 20_000_000 ==> c.max_speed == 20_000_000
            &&& s.pause_floor_us < 300_000 ==> c.pause_floor_us == 300_000
            &&& s.pause_floor_us > 1_500_000 ==> c.pause_floor_us == 1_500_000
            &&& s.target_lufs < -23_000_000 ==> c.target_lufs == -23_000_000
            &&& s.target_lufs > -14_000_000 ==> c.target_lufs == -14_000_000
            &&& c.remove_disfluencies == s.remove_disfluencies
            &&& c.dead_air == s.dead_air
            &&& c.expect_screen == s.expect_screen
            &&& c.captions == s.captions
            &&& c.chapters == s.chapters
        }),
{
}

} // verus!
