//! What is known of a model, and the two providers.
use vstd::prelude::*;

verus! {

/// Measured, never advertised.
#[derive(Debug)]
pub struct Capabilities {
    pub name: String,
    pub json_mode: bool,
    /// Words per second, in millionths.
    pub tok_per_sec: u128,
    /// Share of selection items answered right, in millionths.
    pub selection: i64,
    /// Share of generation items answered right, in millionths.
    pub generation: i64,
    pub tier: Tier,
}

/// Set on precision, not coverage: abstaining is free because every task falls
/// back, whereas acting wrongly is what costs.
#[derive(Debug, Clone, Copy, PartialEq, Eq, Structural)]
pub enum Tier {
    /// Fallbacks only.
    Fallback,
    /// Select only, strict checks.
    Small,
    /// Select and classify.
    Mid,
    /// All tasks including generation.
    Large,
}

impl Tier {
    pub open spec fn spec_from_scores(selection: int, generation: int) -> Tier {
        if selection >= 850_000 && generation >= 750_000 {
            Tier::Large
        } else if selection >= 750_000 {
            Tier::Mid
        } else if selection >= 600_000 {
            Tier::Small
        } else {
            Tier::Fallback
        }
    }

    /// The tier for a pair of scores, in millionths.
    pub fn from_scores(selection: i64, generation: i64) -> (t: Tier)
        ensures
            t == Tier::spec_from_scores(selection as int, generation as int),
    {
        if selection >= 850_000 && generation >= 750_000 {
            Tier::Large
        } else if selection >= 750_000 {
            Tier::Mid
        } else if selection >= 600_000 {
            Tier::Small
        } else {
            Tier::Fallback
        }
    }

    /// Generation is only allowed at the top tier.
    pub fn allows_generation(self) -> (b: bool)
        ensures
            b == (self == Tier::Large),
    {
        self == Tier::Large
    }

    pub fn allows_selection(self) -> (b: bool)
        ensures
            b == (self != Tier::Fallback),
    {
        !matches!(self, Tier::Fallback)
    }
}

/// How far a tier is trusted.
pub open spec fn tier_rank(t: Tier) -> int {
    match t {
        Tier::Fallback => 0,
        Tier::Small => 1,
        Tier::Mid => 2,
        Tier::Large => 3,
    }
}

/// A better score never lowers the tier.
pub proof fn law_tiers_follow_scores(s1: int, g1: int, s2: int, g2: int)
    requires
        s1 <= s2,
        g1 <= g2,
    ensures
        tier_rank(Tier::spec_from_scores(s1, g1)) <= tier_rank(Tier::spec_from_scores(s2, g2)),
{
}

/// The temperature of every call, in millionths: the likeliest answer is asked
/// for, so that a question asked again gets the same one.
pub const TEMPERATURE: i64 = 0;

/// A model served on this machine.
#[derive(Debug)]
pub struct Ollama {
    pub model: String,
    pub url: String,
    pub timeout_s: u32,
}

impl Ollama {
    pub fn new(model: &str) -> (o: Self)
        ensures
            o.model@ == model@,
            o.url@ == "http://localhost:11434/api/generate"@,
            o.timeout_s == 60,
    {
        Ollama {
            model: model.to_string(),
            url: "http://localhost:11434/api/generate".to_string(),
            timeout_s: 60,
        }
    }
}

/// Never answers. The pipeline must run with this installed.
#[derive(Debug)]
pub struct Null;

/// A model is trusted to select from six answers in ten on, to classify from
/// three in four, and to generate only where it selects right 0.85 of the time
/// and generates right three times in four.
pub proof fn law_tiers_start_where_they_start(selection: int, generation: int)
    ensures
        ({
            let t = Tier::spec_from_scores(selection, generation);
            &&& t is Fallback <==> selection < 600_000
            &&& t is Small <==> 600_000 <= selection < 750_000
            &&& t is Mid <==> 750_000 <= selection && (selection < 850_000 || generation < 750_000)
            &&& t is Large <==> selection >= 850_000 && generation >= 750_000
        }),
{
}

} // verus!
