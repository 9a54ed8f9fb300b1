//! How a segment is handed to the encoder.
use vstd::prelude::*;

use crate::constants::ATEMPO_MAX;
use crate::num::{
    decimal, fixed, law_decimals_read_back, law_low_digits_read_back,
    law_rounding_goes_to_the_nearest, low_digits, padded, push_decimal, push_low_digits, push_padded, round_div,
    show_fixed, value,
};
use crate::plan::{Segment, Speed};
use crate::text::views;

verus! {

// ---------------------------------------------------------------------------
// Ratios
// ---------------------------------------------------------------------------
/// `num / den` to six decimal places.
pub open spec fn ratio(num: nat, den: nat) -> Seq<char> {
    let m = round_div(1_000_000 * num, den);
    decimal(m / 1_000_000).push('.') + low_digits(m % 1_000_000, 6)
}

/// Nearest whole quotient, a tie going to the even one.
pub(crate) fn round_ratio(n: u128, d: u128) -> (q: u128)
    requires
        1 <= d <= 0x3fff_ffff_ffff_ffff_ffff_ffff_ffff_ffff,
        n <= 0x3fff_ffff_ffff_ffff_ffff_ffff_ffff_ffff,
    ensures
        q == round_div(n as nat, d as nat),
{
    let q: u128 = n / d;
    let r: u128 = n % d;
    assert(0 <= n as int / d as int <= n) by (nonlinear_arith)
        requires
            d >= 1,
            n >= 0,
    ;
    assert(0 <= r < d);
    if 2 * r < d {
        q
    } else if 2 * r > d {
        q + 1
    } else {
        q + q % 2
    }
}

fn push_ratio(out: &mut String, num: u128, den: u128)
    requires
        num <= 1_000_000_000_000_000_000,
        1 <= den <= 0x3fff_ffff_ffff_ffff_ffff_ffff_ffff_ffff,
    ensures
        final(out)@ == old(out)@ + ratio(num as nat, den as nat),
{
    let m: u128 = round_ratio(1_000_000 * num, den);
    assert(m <= 1_000_000 * num + 1) by {
        let (n, d) = (1_000_000 * num as int, den as int);
        assert(n / d <= n) by (nonlinear_arith)
            requires
                n >= 0,
                d >= 1,
        ;
    }
    push_decimal(out, (m / 1_000_000) as u64);
    out.push('.');
    push_low_digits(out, (m % 1_000_000) as u64, 6);
    assert(out@ =~= old(out)@ + ratio(num as nat, den as nat));
}

// ---------------------------------------------------------------------------
// Tempo
// ---------------------------------------------------------------------------
/// The filters that speed sound up by `num / den`. One filter takes at most a
/// factor of two, so a higher speed chains them.
pub open spec fn tempo_chain(num: nat, den: nat) -> Seq<char>
    decreases num - den,
{
    if den > 0 && num > ATEMPO_MAX * den {
        "atempo=2.000000,"@ + tempo_chain(num, 2 * den)
    } else {
        "atempo="@ + ratio(num, den)
    }
}

/// How many filters of the chain double the tempo.
pub open spec fn doublings(num: nat, den: nat) -> nat
    decreases num - den,
{
    if den > 0 && num > ATEMPO_MAX * den {
        1 + doublings(num, 2 * den)
    } else {
        0
    }
}

pub open spec fn power_of_two(n: nat) -> nat
    decreases n,
{
    if n == 0 {
        1
    } else {
        2 * power_of_two((n - 1) as nat)
    }
}

/// `s`, `n` times over.
pub open spec fn repeated(s: Seq<char>, n: nat) -> Seq<char>
    decreases n,
{
    if n == 0 {
        Seq::empty()
    } else {
        s + repeated(s, (n - 1) as nat)
    }
}

/// The chain multiplies out to the speed, and no filter of it is asked for more
/// than it takes: so many doublings, then one filter for what is left, which is
/// at most two, and more than one where anything was doubled.
pub proof fn law_tempo_multiplies_out(num: nat, den: nat)
    requires
        den > 0,
    ensures
        tempo_chain(num, den) == repeated("atempo=2.000000,"@, doublings(num, den)) + "atempo="@
            + ratio(num, den * power_of_two(doublings(num, den))),
        num <= ATEMPO_MAX * (den * power_of_two(doublings(num, den))),
        doublings(num, den) > 0 ==> num > den * power_of_two(doublings(num, den)),
    decreases num - den,
{
    let k = doublings(num, den);
    let two = "atempo=2.000000,"@;
    if num > ATEMPO_MAX * den {
        law_tempo_multiplies_out(num, 2 * den);
        let j = doublings(num, 2 * den);
        let p = power_of_two(j);
        assert((2 * den) * p == den * (2 * p)) by (nonlinear_arith);
        assert(power_of_two(k) == 2 * p);
        assert(two + (repeated(two, j) + "atempo="@ + ratio(num, (2 * den) * p)) =~= repeated(
            two,
            k,
        ) + "atempo="@ + ratio(num, den * power_of_two(k)));
        assert(num > den * power_of_two(k)) by {
            if j == 0 {
                assert(den * (2 * p) == 2 * den) by (nonlinear_arith)
                    requires
                        p == 1,
                ;
            }
        }
    } else {
        assert(den * power_of_two(0) == den) by (nonlinear_arith)
            requires
                power_of_two(0) == 1,
        ;
        assert(repeated(two, 0) + "atempo="@ + ratio(num, den) =~= "atempo="@ + ratio(num, den));
    }
}

/// The filters that speed the sound of a segment up.
pub fn atempo_chain(speed: &Speed) -> (r: String)
    requires
        speed.wf(),
    ensures
        r@ == tempo_chain(speed.num as nat, speed.den as nat),
{
    let num: u128 = speed.num as u128;
    let mut den: u128 = speed.den as u128;
    let mut r = String::new();
    assert(tempo_chain(num as nat, den as nat) =~= r@ + tempo_chain(num as nat, den as nat));
    while num > 2 * den
        invariant
            1 <= num <= 1_000_000_000_000_000_000,
            1 <= den <= 1_000_000_000_000_000_000,
            tempo_chain(speed.num as nat, speed.den as nat) == r@ + tempo_chain(
                num as nat,
                den as nat,
            ),
        decreases num - den,
    {
        let ghost before = r@;
        r.append("atempo=2.000000,");
        assert(before + ("atempo=2.000000,"@ + tempo_chain(num as nat, (2 * den) as nat)) =~= r@
            + tempo_chain(num as nat, (2 * den) as nat));
        den = 2 * den;
    }
    let ghost before = r@;
    r.append("atempo=");
    push_ratio(&mut r, num, den);
    assert(r@ =~= before + ("atempo="@ + ratio(num as nat, den as nat)));
    r
}

// ---------------------------------------------------------------------------
// Commands
// ---------------------------------------------------------------------------
/// The encoder settings that every segment shares: the pieces have to fit
/// together without another encode.
pub open spec fn encoder_args() -> Seq<Seq<char>> {
    seq![
        "-c:v"@,
        "libx264"@,
        "-preset"@,
        "fast"@,
        "-crf"@,
        "19"@,
        "-profile:v"@,
        "high"@,
        "-pix_fmt"@,
        "yuv420p"@,
        "-g"@,
        "120"@,
        "-c:a"@,
        "pcm_s16le"@,
        "-ar"@,
        "48000"@,
        "-ac"@,
        "2"@,
    ]
}

/// The arguments that cut a segment out of the source.
pub open spec fn cut_args(input: Seq<char>, seg: Segment) -> Seq<Seq<char>> {
    seq![
        "-y"@,
        "-ss"@,
        fixed(seg.src_start as int, 6),
        "-to"@,
        fixed(seg.src_end as int, 6),
        "-i"@,
        input,
    ]
}

/// The arguments that speed a segment up. Its sound is muted: a sped section
/// is dead air.
pub open spec fn speed_args(speed: Speed) -> Seq<Seq<char>> {
    if speed.is_normal() {
        Seq::empty()
    } else {
        seq![
            "-vf"@,
            "setpts=PTS/"@ + ratio(speed.num as nat, speed.den as nat),
            "-af"@,
            tempo_chain(speed.num as nat, speed.den as nat) + ",volume=0"@,
        ]
    }
}

fn push_arg(out: &mut Vec<String>, s: &str)
    ensures
        views(final(out)@) == views(old(out)@).push(s@),
{
    let ghost before = out@;
    out.push(s.to_string());
    assert(views(out@) =~= views(before).push(s@));
}

/// The command line that renders a segment, up to the name of the file.
pub fn segment_args(input: &str, seg: &Segment) -> (args: Vec<String>)
    requires
        seg.speed.wf(),
    ensures
        views(args@) == cut_args(input@, *seg) + speed_args(seg.speed) + encoder_args(),
{
    let mut args: Vec<String> = Vec::new();
    assert(views(args@) =~= Seq::<Seq<char>>::empty());
    push_arg(&mut args, "-y");
    push_arg(&mut args, "-ss");
    push_arg(&mut args, show_fixed(seg.src_start, 6).as_str());
    push_arg(&mut args, "-to");
    push_arg(&mut args, show_fixed(seg.src_end, 6).as_str());
    push_arg(&mut args, "-i");
    push_arg(&mut args, input);
    assert(views(args@) =~= cut_args(input@, *seg));
    let ghost cut = views(args@);
    if !seg.speed.normal_speed() {
        let mut video = "setpts=PTS/".to_string();
        push_ratio(&mut video, seg.speed.num as u128, seg.speed.den as u128);
        let mut sound = atempo_chain(&seg.speed);
        sound.append(",volume=0");
        push_arg(&mut args, "-vf");
        push_arg(&mut args, video.as_str());
        push_arg(&mut args, "-af");
        push_arg(&mut args, sound.as_str());
    }
    assert(views(args@) =~= cut + speed_args(seg.speed));
    let ghost sped = views(args@);
    push_arg(&mut args, "-c:v");
    push_arg(&mut args, "libx264");
    push_arg(&mut args, "-preset");
    push_arg(&mut args, "fast");
    push_arg(&mut args, "-crf");
    push_arg(&mut args, "19");
    push_arg(&mut args, "-profile:v");
    push_arg(&mut args, "high");
    push_arg(&mut args, "-pix_fmt");
    push_arg(&mut args, "yuv420p");
    push_arg(&mut args, "-g");
    push_arg(&mut args, "120");
    push_arg(&mut args, "-c:a");
    push_arg(&mut args, "pcm_s16le");
    push_arg(&mut args, "-ar");
    push_arg(&mut args, "48000");
    push_arg(&mut args, "-ac");
    push_arg(&mut args, "2");
    assert(views(args@) =~= sped + encoder_args());
    args
}

/// The name of the file that the `i`-th segment is rendered to.
pub fn segment_file(i: usize) -> (r: String)
    ensures
        r@ == "seg_"@ + padded(i as nat, 3) + ".mkv"@,
{
    let mut r = "seg_".to_string();
    push_padded(&mut r, i as u64, 3);
    r.append(".mkv");
    r
}

/// The list that joins the rendered files, one line for each.
pub open spec fn list_of(paths: Seq<Seq<char>>) -> Seq<char>
    decreases paths.len(),
{
    if paths.len() == 0 {
        Seq::empty()
    } else {
        list_of(paths.drop_last()) + "file '"@ + paths.last() + "'\n"@
    }
}

/// Writes the list that joins the rendered files.
pub fn concat_list(paths: &Vec<String>) -> (r: String)
    ensures
        r@ == list_of(views(paths@)),
{
    let mut r = String::new();
    let ghost all = views(paths@);
    let mut k: usize = 0;
    assert(r@ =~= list_of(all.take(0)));
    while k < paths.len()
        invariant
            k <= paths@.len(),
            all == views(paths@),
            r@ == list_of(all.take(k as int)),
        decreases paths@.len() - k,
    {
        assert(all.take(k + 1).drop_last() =~= all.take(k as int));
        let ghost before = r@;
        r.append("file '");
        r.append(paths[k].as_str());
        r.append("'\n");
        assert(r@ =~= before + "file '"@ + all[k as int] + "'\n"@);
        k += 1;
    }
    assert(all.take(k as int) =~= all);
    r
}

// ---------------------------------------------------------------------------
// Laws
// ---------------------------------------------------------------------------
/// No filter of the chain is asked for more than a doubling, and the last of
/// them, where anything was doubled, for more than nothing.
pub proof fn law_no_filter_more_than_doubles(num: nat, den: nat)
    requires
        den > 0,
    ensures
        num <= 2 * (den * power_of_two(doublings(num, den))),
        num > 2 * den ==> doublings(num, den) > 0 && num > den * power_of_two(doublings(num, den)),
        num <= 2 * den ==> doublings(num, den) == 0,
{
    law_tempo_multiplies_out(num, den);
}

/// A ratio is written to the nearest millionth: whole digits, a point and six
/// digits.
pub proof fn law_ratios_are_written_to_the_millionth(num: nat, den: nat) -> (r: (
    Seq<char>,
    Seq<char>,
))
    requires
        den > 0,
    ensures
        ratio(num, den) == r.0.push('.') + r.1,
        r.1.len() == 6,
        ({
            let m = value(r.0) * 1_000_000 + value(r.1);
            2_000_000 * num - den <= 2 * den * m <= 2_000_000 * num + den
        }),
{
    let m = round_div(1_000_000 * num, den);
    law_rounding_goes_to_the_nearest(1_000_000 * num, den);
    let (w, f) = (decimal(m / 1_000_000), low_digits(m % 1_000_000, 6));
    law_decimals_read_back(m / 1_000_000);
    law_low_digits_read_back(m % 1_000_000, 6);
    reveal_with_fuel(crate::num::pow10, 7);
    assert(crate::num::pow10(6) == 1_000_000);
    (w, f)
}

/// A segment that plays as recorded is handed on untouched. Of one that is sped
/// up, picture and sound go by the same ratio, and the sound is muted.
pub proof fn law_sped_up_sound_is_muted(speed: Speed)
    ensures
        speed.num == speed.den <==> speed_args(speed).len() == 0,
        speed.num != speed.den ==> {
            let args = speed_args(speed);
            &&& args.len() == 4
            &&& args[0] == "-vf"@
            &&& args[1] == "setpts=PTS/"@ + ratio(speed.num as nat, speed.den as nat)
            &&& args[2] == "-af"@
            &&& args[3] == tempo_chain(speed.num as nat, speed.den as nat) + ",volume=0"@
        },
{
}

/// A segment is cut from its start to its end.
pub proof fn law_a_segment_is_cut_from_start_to_end(input: Seq<char>, seg: Segment)
    ensures
        ({
            let args = cut_args(input, seg);
            &&& args.len() == 7
            &&& args[1] == "-ss"@ && args[2] == fixed(seg.src_start as int, 6)
            &&& args[3] == "-to"@ && args[4] == fixed(seg.src_end as int, 6)
            &&& args[5] == "-i"@ && args[6] == input
        }),
{
}

/// The list has one line for each file, in order.
pub proof fn law_the_list_has_a_line_for_each_file(paths: Seq<Seq<char>>, next: Seq<char>)
    ensures
        list_of(Seq::empty()).len() == 0,
        list_of(paths.push(next)) == list_of(paths) + "file '"@ + next + "'\n"@,
{
    assert(paths.push(next).drop_last() =~= paths);
}

} // verus!
