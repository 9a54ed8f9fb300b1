//! Mastering: the programme is brought to the delivery loudness and held under
//! the true-peak ceiling.
use vstd::prelude::*;

use crate::constants::{COMPRESSOR, HIGHPASS_HZ, LIMITER_CEILING, LIMITER_COMP, MASTER_TP};
use crate::num::{
    decimal, minus, plus, push_decimal, shortest, show_shortest, subtract, sum,
};
use crate::text::{join, joined, views};

verus! {

/// The noise filter.
pub const DENOISE: &'static str = "afftdn=nr=12:nf=-45";

/// What the programme goes through before its loudness is measured or changed.
pub open spec fn cleaning() -> Seq<Seq<char>> {
    seq!["highpass=f="@ + decimal(HIGHPASS_HZ as nat), DENOISE@]
}

/// The filters that clean the programme.
pub fn prefilter() -> (parts: Vec<String>)
    ensures
        views(parts@) == cleaning(),
{
    let mut parts: Vec<String> = Vec::new();
    let mut rumble = "highpass=f=".to_string();
    push_decimal(&mut rumble, HIGHPASS_HZ as u64);
    parts.push(rumble);
    parts.push(DENOISE.to_string());
    assert(views(parts@) =~= cleaning());
    parts
}

/// The gain that brings a programme to a target. Silence would take an infinite
/// one.
pub open spec fn gain(lufs: int, target: int) -> int {
    minus(target, lufs)
}

/// The gain that brings a programme to a target loudness.
pub fn gain_to(lufs: i64, target_lufs: i64) -> (g: i64)
    ensures
        g == gain(lufs as int, target_lufs as int),
{
    subtract(target_lufs, lufs)
}

/// Whether flat gain to the target would push the peak over the ceiling. Only
/// then is the programme compressed.
pub fn would_clip(lufs: i64, true_peak: i64, target_lufs: i64) -> (b: bool)
    ensures
        b == (plus(true_peak as int, gain(lufs as int, target_lufs as int)) > MASTER_TP),
        -500_000_000_000_000_000 <= true_peak <= 500_000_000_000_000_000 && -500_000_000_000_000_000
            <= lufs <= 500_000_000_000_000_000 && -500_000_000_000_000_000 <= target_lufs
            <= 500_000_000_000_000_000 ==> (b <==> true_peak + target_lufs - lufs > -1_500_000),
{
    sum(true_peak, gain_to(lufs, target_lufs)) > MASTER_TP
}

/// The parts of the mastering filter. The loudness is asked for a little above
/// the target, by what the limiter then costs, and the limiter alone holds the
/// peak into the encode.
pub open spec fn master_parts(compress: bool, target: int) -> Seq<Seq<char>> {
    cleaning() + (if compress {
        seq![COMPRESSOR@]
    } else {
        Seq::empty()
    }) + seq![
        "loudnorm=I="@ + shortest(target + LIMITER_COMP) + ":TP="@ + shortest(MASTER_TP as int)
            + ":LRA=11"@,
        "alimiter=limit="@ + shortest(LIMITER_CEILING as int) + ":level=disabled"@,
    ]
}

/// The mastering filter.
pub fn master_filter(compress: bool, target_lufs: i64) -> (r: String)
    requires
        target_lufs <= i64::MAX - LIMITER_COMP,
    ensures
        r@ == joined(master_parts(compress, target_lufs as int), ","@),
{
    let mut parts = prefilter();
    let ghost clean = views(parts@);
    if compress {
        parts.push(COMPRESSOR.to_string());
    }
    let ghost squeezed = views(parts@);
    assert(squeezed =~= clean + (if compress {
        seq![COMPRESSOR@]
    } else {
        Seq::empty()
    }));
    let mut loud = "loudnorm=I=".to_string();
    loud.append(show_shortest(target_lufs + LIMITER_COMP).as_str());
    loud.append(":TP=");
    loud.append(show_shortest(MASTER_TP).as_str());
    loud.append(":LRA=11");
    parts.push(loud);
    let mut limit = "alimiter=limit=".to_string();
    limit.append(show_shortest(LIMITER_CEILING).as_str());
    limit.append(":level=disabled");
    parts.push(limit);
    assert(views(parts@) =~= master_parts(compress, target_lufs as int));
    join(&parts, ",")
}

/// The ceiling and the limiter are out of the policy's reach: whatever the
/// target, the filter ends in the same limiter and asks for the same peak.
pub proof fn law_the_ceiling_is_fixed(compress: bool, a: int, b: int)
    ensures
        master_parts(compress, a).len() == master_parts(compress, b).len(),
        master_parts(compress, a).last() == master_parts(compress, b).last(),
        forall|k: int|
            0 <= k < master_parts(compress, a).len() - 2 ==> master_parts(compress, a)[k]
                == #[trigger] master_parts(compress, b)[k],
{
}

/// The gain takes the programme from where it is to the target.
pub proof fn law_gain_makes_up_the_difference(lufs: int, target: int)
    requires
        -1_000_000_000_000_000_000 <= lufs <= 1_000_000_000_000_000_000,
        -1_000_000_000_000_000_000 <= target <= 1_000_000_000_000_000_000,
    ensures
        lufs + gain(lufs, target) == target,
{
}

/// The programme is cleaned first, compressed only where that is asked for,
/// brought to 0.05 above the target under a true peak of -1.5, and limited to
/// 0.794 last.
pub proof fn law_mastering_cleans_levels_and_limits(compress: bool, target: int)
    ensures
        ({
            let parts = master_parts(compress, target);
            let n = parts.len() as int;
            &&& n == (if compress {
                5int
            } else {
                4
            })
            &&& parts[0] == "highpass=f="@ + decimal(75)
            &&& parts[1] == "afftdn=nr=12:nf=-45"@
            &&& compress ==> parts[2] == COMPRESSOR@
            &&& parts[n - 2] == "loudnorm=I="@ + shortest(target + 50_000) + ":TP="@ + shortest(
                -1_500_000,
            ) + ":LRA=11"@
            &&& parts[n - 1] == "alimiter=limit="@ + shortest(794_000) + ":level=disabled"@
        }),
{
}

} // verus!
