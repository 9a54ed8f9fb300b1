//! The edit plan: what becomes of the dead air, and the time map.
use vstd::prelude::*;

use crate::constants::TIME_MAX;
use crate::dead_air::{least, ordered_runs, SPEED_FROM_US};
use crate::vad::slices_us;

pub use crate::dead_air::{
    bridge_dead, count_speedups, dead_runs, long_runs, plan_runs, speedup_starts, trim_edges,
};

verus! {

// ---------------------------------------------------------------------------
// What becomes of a dead run
// ---------------------------------------------------------------------------
/// A playback speed, as an exact fraction.
#[derive(Clone, Copy, Debug, PartialEq, Eq, Structural)]
pub struct Speed {
    pub num: i64,
    pub den: i64,
}

impl Speed {
    pub open spec fn wf(self) -> bool {
        0 < self.num <= TIME_MAX && 0 < self.den <= TIME_MAX
    }

    /// Plays as recorded.
    pub open spec fn is_normal(self) -> bool {
        self.num == self.den
    }

    /// The two fractions are the same number.
    pub open spec fn equals(self, other: Speed) -> bool {
        self.num * other.den == other.num * self.den
    }

    pub fn normal() -> (s: Speed)
        ensures
            s == (Speed { num: 1, den: 1 }),
            s.wf(),
            s.is_normal(),
    {
        Speed { num: 1, den: 1 }
    }

    pub fn normal_speed(&self) -> (b: bool)
        ensures
            b == self.is_normal(),
    {
        self.num == self.den
    }

    pub fn same(&self, other: &Speed) -> (b: bool)
        ensures
            b == self.equals(*other),
    {
        proof {
            lemma_product_fits(self.num, other.den);
            lemma_product_fits(other.num, self.den);
        }
        self.num as i128 * other.den as i128 == other.num as i128 * self.den as i128
    }
}

proof fn lemma_product_fits(a: i64, b: i64)
    ensures
        i128::MIN <= a * b <= i128::MAX,
{
    assert(-0x8000_0000_0000_0000 * 0x8000_0000_0000_0000 <= a * b <= 0x8000_0000_0000_0000
        * 0x8000_0000_0000_0000) by (nonlinear_arith)
        requires
            -0x8000_0000_0000_0000 <= a <= 0x7fff_ffff_ffff_ffff,
            -0x8000_0000_0000_0000 <= b <= 0x7fff_ffff_ffff_ffff,
    ;
}

/// How dead air is handled.
#[derive(Clone, Copy, Debug, PartialEq, Eq, Structural)]
pub enum DeadAir {
    Cut,
    Speed,
    Keep,
}

/// The part of the policy that the planner may see. Pacing only: no guard.
#[derive(Clone, Copy, Debug)]
pub struct Pacing {
    pub dead_air: DeadAir,
    /// Upper bound on a speed-up, in millionths.
    pub max_speed: i64,
    /// Dead runs shorter than this are left alone.
    pub pause_floor_us: i64,
}

impl Pacing {
    pub open spec fn wf(self) -> bool {
        1_000_000 <= self.max_speed <= TIME_MAX && 0 < self.pause_floor_us
    }
}

#[derive(Clone, Copy, Debug)]
pub enum Action {
    Keep,
    Collapse { to_us: i64 },
    Speed { factor: Speed },
}

/// What a collapsed run lasts.
pub const COLLAPSE_US: i64 = 500_000;

/// A sped-up run plays for a twelfth of its length, but for no less than
/// 1.2 s and no more than 6 s.
pub open spec fn unbounded_speed(len: int) -> Speed {
    if len <= 14_400_000 {
        Speed { num: len as i64, den: 1_200_000 }
    } else if len < 72_000_000 {
        Speed { num: 12, den: 1 }
    } else {
        Speed { num: len as i64, den: 6_000_000 }
    }
}

/// That speed, held to `max` millionths.
pub open spec fn bounded_speed(len: int, max: int) -> Speed {
    let s = unbounded_speed(len);
    if s.num * 1_000_000 > max * s.den {
        Speed { num: max as i64, den: 1_000_000 }
    } else {
        s
    }
}

/// What becomes of a dead run of `len` microseconds.
pub open spec fn decision(len: int, pacing: Pacing) -> Action {
    if pacing.dead_air == DeadAir::Keep || len < pacing.pause_floor_us {
        Action::Keep
    } else if pacing.dead_air == DeadAir::Speed && len >= SPEED_FROM_US {
        Action::Speed { factor: bounded_speed(len, pacing.max_speed as int) }
    } else {
        Action::Collapse { to_us: least(COLLAPSE_US as int, len) as i64 }
    }
}

/// Decides what becomes of a dead run: short ones stay, middling ones collapse
/// and long ones are sped up, as far as the pacing allows.
pub fn decide(len_us: i64, pacing: Pacing) -> (a: Action)
    requires
        pacing.wf(),
        0 <= len_us <= TIME_MAX,
    ensures
        a == decision(len_us as int, pacing),
        a matches Action::Speed { factor } ==> factor.wf() && factor.num >= factor.den,
        a matches Action::Collapse { to_us } ==> 0 < to_us <= len_us && to_us <= COLLAPSE_US,
{
    if pacing.dead_air == DeadAir::Keep || len_us < pacing.pause_floor_us {
        Action::Keep
    } else if pacing.dead_air == DeadAir::Speed && len_us >= SPEED_FROM_US {
        let s = if len_us <= 14_400_000 {
            Speed { num: len_us, den: 1_200_000 }
        } else if len_us < 72_000_000 {
            Speed { num: 12, den: 1 }
        } else {
            Speed { num: len_us, den: 6_000_000 }
        };
        proof {
            lemma_product_fits(pacing.max_speed, s.den);
        }
        if s.num as i128 * 1_000_000 > pacing.max_speed as i128 * s.den as i128 {
            Action::Speed { factor: Speed { num: pacing.max_speed, den: 1_000_000 } }
        } else {
            Action::Speed { factor: s }
        }
    } else {
        Action::Collapse {
            to_us: if COLLAPSE_US < len_us {
                COLLAPSE_US
            } else {
                len_us
            },
        }
    }
}

// ---------------------------------------------------------------------------
// Segments
// ---------------------------------------------------------------------------
/// A stretch of the source and the speed it plays at.
#[derive(Clone, Copy, Debug, PartialEq, Eq, Structural)]
pub struct Segment {
    pub src_start: i64,
    pub src_end: i64,
    pub speed: Speed,
}

pub open spec fn segment(start: int, end: int, speed: Speed) -> Segment {
    Segment { src_start: start as i64, src_end: end as i64, speed }
}

pub open spec fn normal_segment(start: int, end: int) -> Segment {
    segment(start, end, Speed { num: 1, den: 1 })
}

/// The segments for the first runs, and the slice up to which they account for
/// the source.
pub open spec fn segments_upto(runs: Seq<(usize, usize)>, pacing: Pacing) -> (Seq<Segment>, int)
    decreases runs.len(),
{
    if runs.len() == 0 {
        (Seq::empty(), 0)
    } else {
        let (segs, cursor) = segments_upto(runs.drop_last(), pacing);
        let (a, b) = (runs.last().0 as int, runs.last().1 as int);
        let lead = if a > cursor {
            segs.push(normal_segment(slices_us(cursor), slices_us(a)))
        } else {
            segs
        };
        match decision(slices_us(b - a), pacing) {
            Action::Keep => (segs, cursor),
            Action::Collapse { to_us } => (
                lead.push(normal_segment(slices_us(a), slices_us(a) + to_us)),
                b,
            ),
            Action::Speed { factor } => (
                lead.push(segment(slices_us(a), slices_us(b), factor)),
                b,
            ),
        }
    }
}

/// The segments of a whole recording.
pub open spec fn segments_of(
    runs: Seq<(usize, usize)>,
    grid_len: int,
    src_duration: int,
    pacing: Pacing,
) -> Seq<Segment> {
    let (segs, cursor) = segments_upto(runs, pacing);
    if cursor < grid_len {
        segs.push(normal_segment(slices_us(cursor), src_duration))
    } else {
        segs
    }
}

/// Runs lie inside a grid whose times the library can hold.
pub open spec fn runs_fit(runs: Seq<(usize, usize)>, grid_len: int) -> bool {
    &&& slices_us(grid_len) <= TIME_MAX
    &&& forall|k: int| 0 <= k < runs.len() ==> (#[trigger] runs[k]).0 <= runs[k].1 <= grid_len
}

fn slice_time(n: usize, Ghost(grid_len): Ghost<int>) -> (t: i64)
    requires
        n <= grid_len,
        slices_us(grid_len) <= TIME_MAX,
    ensures
        t == slices_us(n as int),
        0 <= t <= TIME_MAX,
{
    n as i64 * 20_000
}

/// Cuts the source into segments: dead runs collapse or speed up, and
/// everything between them plays as recorded.
pub fn build_segments(
    runs: &Vec<(usize, usize)>,
    grid_len: usize,
    src_duration_us: i64,
    pacing: Pacing,
) -> (segs: Vec<Segment>)
    requires
        pacing.wf(),
        runs_fit(runs@, grid_len as int),
    ensures
        segs@ == segments_of(runs@, grid_len as int, src_duration_us as int, pacing),
{
    let ghost n = grid_len as int;
    let mut segs: Vec<Segment> = Vec::new();
    let mut cursor: usize = 0;
    let mut k: usize = 0;
    while k < runs.len()
        invariant
            k <= runs@.len(),
            n == grid_len,
            cursor <= n,
            pacing.wf(),
            runs_fit(runs@, n),
            segments_upto(runs@.take(k as int), pacing) == (segs@, cursor as int),
        decreases runs@.len() - k,
    {
        assert(runs@.take(k + 1).drop_last() == runs@.take(k as int));
        let (start, end) = runs[k];
        assert(start <= end <= n);
        let len: i64 = slice_time(end - start, Ghost(n));
        match decide(len, pacing) {
            Action::Keep => {},
            Action::Collapse { to_us } => {
                let from: i64 = slice_time(start, Ghost(n));
                if start > cursor {
                    segs.push(
                        Segment {
                            src_start: slice_time(cursor, Ghost(n)),
                            src_end: from,
                            speed: Speed::normal(),
                        },
                    );
                }
                segs.push(
                    Segment { src_start: from, src_end: from + to_us, speed: Speed::normal() },
                );
                cursor = end;
            },
            Action::Speed { factor } => {
                let from: i64 = slice_time(start, Ghost(n));
                if start > cursor {
                    segs.push(
                        Segment {
                            src_start: slice_time(cursor, Ghost(n)),
                            src_end: from,
                            speed: Speed::normal(),
                        },
                    );
                }
                segs.push(
                    Segment {
                        src_start: from,
                        src_end: slice_time(end, Ghost(n)),
                        speed: factor,
                    },
                );
                cursor = end;
            },
        }
        k += 1;
    }
    assert(runs@.take(k as int) == runs@);
    if cursor < grid_len {
        segs.push(
            Segment {
                src_start: slice_time(cursor, Ghost(n)),
                src_end: src_duration_us,
                speed: Speed::normal(),
            },
        );
    }
    segs
}

/// The run is changed by the plan, not kept.
pub open spec fn is_changed(run: (usize, usize), pacing: Pacing) -> bool {
    decision(slices_us(run.1 - run.0), pacing) !is Keep
}

/// A changed run holds the moment `t`.
pub open spec fn in_changed_run(runs: Seq<(usize, usize)>, pacing: Pacing, t: int) -> bool {
    exists|k: int|
        0 <= k < runs.len() && is_changed(#[trigger] runs[k], pacing) && slices_us(runs[k].0 as int)
            <= t < slices_us(runs[k].1 as int)
}

/// The segment plays the source moment `t`.
pub open spec fn plays(s: Segment, t: int) -> bool {
    s.src_start <= t < s.src_end
}

/// Some segment plays the source moment `t` as recorded.
pub open spec fn plays_as_recorded(segs: Seq<Segment>, t: int) -> bool {
    exists|k: int|
        0 <= k < segs.len() && (#[trigger] segs[k]).speed.is_normal() && plays(segs[k], t)
}

/// Segments go forward through the source and never go back.
pub open spec fn in_source_order(segs: Seq<Segment>) -> bool {
    &&& forall|k: int| 0 <= k < segs.len() ==> (#[trigger] segs[k]).src_start < segs[k].src_end
    &&& forall|k: int, l: int|
        0 <= k < l < segs.len() ==> (#[trigger] segs[k]).src_end <= (#[trigger] segs[l]).src_start
}

proof fn lemma_segments_upto(runs: Seq<(usize, usize)>, pacing: Pacing, n: int)
    requires
        0 <= n,
        pacing.wf(),
        runs_fit(runs, n),
        ordered_runs(runs, n),
    ensures
        ({
            let (segs, cursor) = segments_upto(runs, pacing);
            &&& in_source_order(segs)
            &&& forall|k: int|
                0 <= k < segs.len() ==> 0 <= (#[trigger] segs[k]).src_start && segs[k].src_end
                    <= slices_us(cursor) && segs[k].speed.wf() && segs[k].speed.num
                    >= segs[k].speed.den
            &&& 0 <= cursor <= n
            &&& cursor == 0 || (runs.len() > 0 && cursor <= runs.last().1)
            &&& forall|t: int|
                0 <= t < slices_us(cursor) && !in_changed_run(runs, pacing, t)
                    ==> #[trigger] plays_as_recorded(segs, t)
        }),
    decreases runs.len(),
{
    if runs.len() > 0 {
        let front = runs.drop_last();
        assert forall|k: int| 0 <= k < front.len() implies (#[trigger] front[k]).0 <= front[k].1
            <= n by {
            assert(runs[k].0 <= runs[k].1);
        }
        assert(ordered_runs(front, n));
        assert(runs_fit(front, n));
        lemma_segments_upto(front, pacing, n);
        let (segs, cursor) = segments_upto(front, pacing);
        let (segs2, cursor2) = segments_upto(runs, pacing);
        let last = (runs.len() - 1) as int;
        let a = runs[last].0 as int;
        let b = runs[last].1 as int;
        assert(a <= b <= n);
        assert(cursor <= a) by {
            if front.len() > 0 {
                assert(runs[last - 1].1 <= runs[last].0);
            }
        }
        assert(slices_us(n) <= TIME_MAX);
        let lead = if a > cursor {
            segs.push(normal_segment(slices_us(cursor), slices_us(a)))
        } else {
            segs
        };
        if is_changed(runs[last], pacing) {
            let x = segs2.last();
            assert(segs2 == lead.push(x));
            assert(x.src_start == slices_us(a));
            assert(x.src_start < x.src_end <= slices_us(b));
            assert(x.speed.wf() && x.speed.num >= x.speed.den);
            assert forall|t: int|
                0 <= t < slices_us(cursor2) && !in_changed_run(
                    runs,
                    pacing,
                    t,
                ) implies #[trigger] plays_as_recorded(segs2, t) by {
                assert(!(slices_us(a) <= t < slices_us(b))) by {
                    assert(is_changed(runs[last], pacing));
                }
                if t < slices_us(cursor) {
                    assert(!in_changed_run(front, pacing, t)) by {
                        if in_changed_run(front, pacing, t) {
                            let k = choose|k: int|
                                0 <= k < front.len() && is_changed(#[trigger] front[k], pacing)
                                    && slices_us(front[k].0 as int) <= t < slices_us(
                                    front[k].1 as int,
                                );
                            assert(runs[k] == front[k]);
                        }
                    }
                    assert(plays_as_recorded(segs, t));
                    let k = choose|k: int|
                        0 <= k < segs.len() && (#[trigger] segs[k]).speed.is_normal() && plays(
                            segs[k],
                            t,
                        );
                    assert(segs2[k] == segs[k]);
                } else {
                    let k = segs.len() as int;
                    assert(segs2[k] == normal_segment(slices_us(cursor), slices_us(a)));
                    assert(plays(segs2[k], t));
                }
            }
            assert forall|k: int| 0 <= k < segs2.len() implies 0 <= (#[trigger] segs2[k]).src_start
                < segs2[k].src_end && segs2[k].src_end <= slices_us(cursor2) && segs2[k].speed.wf()
                && segs2[k].speed.num >= segs2[k].speed.den by {
                if k < segs.len() {
                    assert(segs2[k] == segs[k]);
                } else if k < lead.len() {
                    assert(segs2[k] == lead[k]);
                }
            }
            assert forall|k: int, l: int| 0 <= k < l < segs2.len() implies (
            #[trigger] segs2[k]).src_end <= (#[trigger] segs2[l]).src_start by {
                if l < segs.len() {
                    assert(segs[k].src_end <= segs[l].src_start);
                } else if k < segs.len() {
                    assert(segs2[k] == segs[k]);
                    assert(segs[k].src_end <= slices_us(cursor));
                }
            }
        } else {
            assert(segs2 == segs && cursor2 == cursor);
            assert forall|t: int|
                0 <= t < slices_us(cursor2) && !in_changed_run(
                    runs,
                    pacing,
                    t,
                ) implies #[trigger] plays_as_recorded(segs2, t) by {
                assert(!in_changed_run(front, pacing, t)) by {
                    if in_changed_run(front, pacing, t) {
                        let k = choose|k: int|
                            0 <= k < front.len() && is_changed(#[trigger] front[k], pacing)
                                && slices_us(front[k].0 as int) <= t < slices_us(front[k].1 as int);
                        assert(runs[k] == front[k]);
                    }
                }
            }
        }
    }
}

/// The plan touches dead air and nothing else: segments go forward through the
/// source, every speed is at least one, and every source moment outside the
/// runs that the pacing changes plays as recorded.
pub proof fn law_only_dead_air_changes(
    runs: Seq<(usize, usize)>,
    grid_len: int,
    src_duration: int,
    pacing: Pacing,
)
    requires
        pacing.wf(),
        runs_fit(runs, grid_len),
        ordered_runs(runs, grid_len),
        0 <= grid_len,
        slices_us(grid_len) <= src_duration <= TIME_MAX,
    ensures
        in_source_order(segments_of(runs, grid_len, src_duration, pacing)),
        forall|k: int|
            0 <= k < segments_of(runs, grid_len, src_duration, pacing).len() ==> {
                let s = #[trigger] segments_of(runs, grid_len, src_duration, pacing)[k];
                0 <= s.src_start && s.src_end <= src_duration && s.speed.wf() && s.speed.num
                    >= s.speed.den
            },
        forall|t: int|
            0 <= t < slices_us(grid_len) && !in_changed_run(runs, pacing, t)
                ==> #[trigger] plays_as_recorded(
                segments_of(runs, grid_len, src_duration, pacing),
                t,
            ),
{
    lemma_segments_upto(runs, pacing, grid_len);
    let (segs, cursor) = segments_upto(runs, pacing);
    let all = segments_of(runs, grid_len, src_duration, pacing);
    if cursor < grid_len {
        assert(slices_us(cursor) < slices_us(grid_len));
        assert forall|k: int, l: int| 0 <= k < l < all.len() implies (#[trigger] all[k]).src_end
            <= (#[trigger] all[l]).src_start by {
            if l < segs.len() {
                assert(segs[k].src_end <= segs[l].src_start);
            } else {
                assert(segs[k].src_end <= slices_us(cursor));
            }
        }
        assert forall|t: int|
            0 <= t < slices_us(grid_len) && !in_changed_run(
                runs,
                pacing,
                t,
            ) implies #[trigger] plays_as_recorded(all, t) by {
            if t < slices_us(cursor) {
                assert(plays_as_recorded(segs, t));
                let k = choose|k: int|
                    0 <= k < segs.len() && (#[trigger] segs[k]).speed.is_normal() && plays(
                        segs[k],
                        t,
                    );
                assert(all[k] == segs[k]);
            } else {
                let k = segs.len() as int;
                assert(all[k].speed.is_normal() && plays(all[k], t));
            }
        }
    } else {
        assert forall|t: int|
            0 <= t < slices_us(grid_len) && !in_changed_run(
                runs,
                pacing,
                t,
            ) implies #[trigger] plays_as_recorded(all, t) by {
            assert(plays_as_recorded(segs, t));
        }
    }
}

// ---------------------------------------------------------------------------
// Merging neighbours
// ---------------------------------------------------------------------------
/// The second segment carries on where the first stops, at the same speed.
pub open spec fn continues(a: Segment, b: Segment) -> bool {
    a.speed.equals(b.speed) && a.src_end == b.src_start
}

/// Segments with every one that only continues its neighbour joined to it.
pub open spec fn merged(segs: Seq<Segment>) -> Seq<Segment>
    decreases segs.len(),
{
    if segs.len() == 0 {
        Seq::empty()
    } else {
        let r = merged(segs.drop_last());
        let s = segs.last();
        if r.len() > 0 && continues(r.last(), s) {
            r.drop_last().push(Segment { src_end: s.src_end, ..r.last() })
        } else {
            r.push(s)
        }
    }
}

/// Joins segments that only continue each other.
pub fn merge_adjacent(segs: Vec<Segment>) -> (out: Vec<Segment>)
    ensures
        out@ == merged(segs@),
{
    let mut out: Vec<Segment> = Vec::new();
    let mut k: usize = 0;
    while k < segs.len()
        invariant
            k <= segs@.len(),
            out@ == merged(segs@.take(k as int)),
        decreases segs@.len() - k,
    {
        assert(segs@.take(k + 1).drop_last() == segs@.take(k as int));
        let s = segs[k];
        let m: usize = out.len();
        let mut joined = false;
        if m > 0 {
            let prev = out[m - 1];
            if prev.speed.same(&s.speed) && prev.src_end == s.src_start {
                let ghost before = out@;
                out.set(
                    m - 1,
                    Segment { src_start: prev.src_start, src_end: s.src_end, speed: prev.speed },
                );
                assert(out@ == before.drop_last().push(
                    Segment { src_end: s.src_end, ..before.last() },
                ));
                joined = true;
            }
        }
        if !joined {
            out.push(s);
        }
        k += 1;
    }
    assert(segs@.take(k as int) == segs@);
    out
}

/// Merging changes nothing that is played: a moment plays as recorded after it
/// exactly when it did before, and no two neighbours are left to merge.
pub proof fn law_merging_keeps_what_plays(segs: Seq<Segment>, t: int)
    requires
        forall|k: int|
            0 <= k < segs.len() ==> (#[trigger] segs[k]).src_start <= segs[k].src_end
                && segs[k].speed.wf(),
    ensures
        plays_as_recorded(merged(segs), t) <==> plays_as_recorded(segs, t),
        forall|k: int, l: int|
            0 <= k && l == k + 1 && l < merged(segs).len() ==> !continues(
                #[trigger] merged(segs)[k],
                #[trigger] merged(segs)[l],
            ),
        forall|k: int|
            0 <= k < merged(segs).len() ==> (#[trigger] merged(segs)[k]).src_start <= merged(
                segs,
            )[k].src_end && merged(segs)[k].speed.wf(),
    decreases segs.len(),
{
    if segs.len() > 0 {
        let front = segs.drop_last();
        let n = front.len() as int;
        let s = segs.last();
        assert(s == segs[n]);
        assert forall|k: int| 0 <= k < front.len() implies (#[trigger] front[k]).src_start
            <= front[k].src_end && front[k].speed.wf() by {
            assert(front[k] == segs[k]);
        }
        law_merging_keeps_what_plays(front, t);
        let r = merged(front);
        let m = merged(segs);
        let joins = r.len() > 0 && continues(r.last(), s);
        if plays_as_recorded(segs, t) {
            let k = choose|k: int|
                0 <= k < segs.len() && (#[trigger] segs[k]).speed.is_normal() && plays(segs[k], t);
            if k < n {
                assert(front[k] == segs[k]);
                assert(plays_as_recorded(front, t));
                let j = choose|j: int|
                    0 <= j < r.len() && (#[trigger] r[j]).speed.is_normal() && plays(r[j], t);
                if j == r.len() - 1 && joins {
                    assert(m[j].speed.is_normal() && plays(m[j], t));
                } else {
                    assert(m[j] == r[j]);
                }
            } else if joins {
                lemma_equal_to_normal(r.last().speed, s.speed);
                assert(r[r.len() - 1].src_start <= r[r.len() - 1].src_end);
                assert(m[m.len() - 1].speed.is_normal() && plays(m[m.len() - 1], t));
            } else {
                assert(m[m.len() - 1] == s);
            }
        }
        if plays_as_recorded(m, t) {
            let j = choose|j: int|
                0 <= j < m.len() && (#[trigger] m[j]).speed.is_normal() && plays(m[j], t);
            if joins && j == m.len() - 1 {
                lemma_equal_to_normal(r.last().speed, s.speed);
                if t < s.src_start {
                    assert(r[r.len() - 1].speed.is_normal() && plays(r[r.len() - 1], t));
                    assert(plays_as_recorded(r, t));
                } else {
                    assert(segs[n].speed.is_normal() && plays(segs[n], t));
                }
            } else if j < r.len() {
                assert(m[j] == r[j]);
                assert(plays_as_recorded(r, t));
            } else {
                assert(segs[n].speed.is_normal() && plays(segs[n], t));
            }
            if plays_as_recorded(r, t) {
                assert(plays_as_recorded(front, t));
                let k = choose|k: int|
                    0 <= k < front.len() && (#[trigger] front[k]).speed.is_normal() && plays(
                        front[k],
                        t,
                    );
                assert(segs[k] == front[k]);
            }
        }
        assert forall|k: int| 0 <= k < m.len() implies (#[trigger] m[k]).src_start <= m[k].src_end
            && m[k].speed.wf() by {
            if k < r.len() {
                assert(r[k].src_start <= r[k].src_end && r[k].speed.wf());
            }
        }
    }
}

proof fn lemma_equal_to_normal(a: Speed, b: Speed)
    requires
        a.wf(),
        b.wf(),
        a.equals(b),
    ensures
        a.is_normal() <==> b.is_normal(),
{
    let (an, ad, bn, bd) = (a.num as int, a.den as int, b.num as int, b.den as int);
    assert(an * bd == bn * ad);
    assert((an == ad) <==> (bn == bd)) by (nonlinear_arith)
        requires
            an * bd == bn * ad,
            an > 0,
            ad > 0,
            bn > 0,
            bd > 0,
    ;
}

// ---------------------------------------------------------------------------
// The plan and its time map
// ---------------------------------------------------------------------------
/// `x * num / den`, to the nearest whole number.
pub open spec fn scaled(x: int, num: int, den: int) -> int {
    (2 * x * num + den) / (2 * den)
}

/// `x * num / den`, to the nearest whole number.
pub(crate) fn scale_by(x: i64, num: i64, den: i64) -> (r: i128)
    requires
        0 <= x <= TIME_MAX,
        0 <= num <= TIME_MAX,
        0 < den <= TIME_MAX,
    ensures
        r == scaled(x as int, num as int, den as int),
        0 <= r,
{
    let ghost (gx, gn) = (x as int, num as int);
    assert(0 <= gx * gn <= 1_000_000_000_000_000_000 * 1_000_000_000_000_000_000)
        by (nonlinear_arith)
        requires
            0 <= gx <= 1_000_000_000_000_000_000,
            0 <= gn <= 1_000_000_000_000_000_000,
    ;
    assert(2 * gx * gn == 2 * (gx * gn)) by (nonlinear_arith);
    let a: i128 = 2 * (x as i128 * num as i128) + den as i128;
    let b: i128 = 2 * den as i128;
    proof {
        vstd::arithmetic::div_mod::lemma_div_pos_is_pos(a as int, b as int);
    }
    a / b
}

/// A segment placed on the output timeline.
#[derive(Clone, Copy, Debug, PartialEq, Eq, Structural)]
pub struct PlanSegment {
    pub src_start: i64,
    pub src_end: i64,
    pub speed: Speed,
    pub out_start: i64,
    pub out_end: i64,
}

/// The finished plan.
#[derive(Debug)]
pub struct Plan {
    pub src_duration_us: i64,
    pub out_duration_us: i64,
    pub grid_len: usize,
    pub crop: String,
    pub segments: Vec<PlanSegment>,
}

/// How long a segment plays for.
pub open spec fn out_length(s: Segment) -> int {
    scaled(s.src_end - s.src_start, s.speed.den as int, s.speed.num as int)
}

/// How long the segments play for, one after the other.
pub open spec fn total_out(segs: Seq<Segment>) -> int
    decreases segs.len(),
{
    if segs.len() == 0 {
        0
    } else {
        total_out(segs.drop_last()) + out_length(segs.last())
    }
}

/// The segment can be placed on a timeline: it runs forwards, at a speed of at
/// least one.
pub open spec fn playable(s: Segment) -> bool {
    0 <= s.src_start <= s.src_end <= TIME_MAX && s.speed.wf() && s.speed.num >= s.speed.den
}

/// Every segment is playable, and together they fit the timeline.
pub open spec fn all_playable(segs: Seq<Segment>) -> bool {
    &&& forall|k: int| 0 <= k < segs.len() ==> playable(#[trigger] segs[k])
    &&& total_out(segs) <= TIME_MAX
}

/// The segments laid end to end: each starts where those before it end.
pub open spec fn laid_out(segs: Seq<Segment>) -> Seq<PlanSegment> {
    Seq::new(
        segs.len(),
        |k: int|
            PlanSegment {
                src_start: segs[k].src_start,
                src_end: segs[k].src_end,
                speed: segs[k].speed,
                out_start: total_out(segs.take(k)) as i64,
                out_end: total_out(segs.take(k + 1)) as i64,
            },
    )
}

impl PlanSegment {
    pub open spec fn source(self) -> Segment {
        Segment { src_start: self.src_start, src_end: self.src_end, speed: self.speed }
    }
}

impl Plan {
    /// Every segment is one that can be played, and takes as long on the output
    /// as its speed makes it.
    pub open spec fn segments_wf(&self) -> bool {
        forall|k: int|
            0 <= k < self.segments@.len() ==> {
                let s = #[trigger] self.segments@[k];
                &&& playable(s.source())
                &&& s.out_end - s.out_start == out_length(s.source())
                &&& 0 <= s.out_start <= s.out_end <= TIME_MAX
            }
    }

    /// Segments are playable, follow each other without a gap from zero, and
    /// fill the output duration.
    pub open spec fn wf(&self) -> bool {
        &&& forall|k: int|
            0 <= k < self.segments@.len() ==> {
                let s = #[trigger] self.segments@[k];
                playable(s.source()) && s.out_end - s.out_start == out_length(s.source())
            }
        &&& self.segments@.len() > 0 ==> self.segments@[0].out_start == 0
        &&& forall|k: int, l: int|
            0 <= k && l == k + 1 && l < self.segments@.len() ==> (
            #[trigger] self.segments@[k]).out_end == (#[trigger] self.segments@[l]).out_start
        &&& self.out_duration_us == (if self.segments@.len() > 0 {
            self.segments@.last().out_end
        } else {
            0
        })
        &&& 0 <= self.out_duration_us <= TIME_MAX
        &&& forall|k: int|
            0 <= k < self.segments@.len() ==> 0 <= (#[trigger] self.segments@[k]).out_start
                <= self.segments@[k].out_end <= self.out_duration_us
    }
}

proof fn lemma_out_length(s: Segment)
    requires
        playable(s),
    ensures
        0 <= out_length(s) <= s.src_end - s.src_start,
{
    let x = s.src_end - s.src_start;
    let d = s.speed.den as int;
    let n = s.speed.num as int;
    let q = out_length(s);
    lemma_quotient(2 * x * d + n, 2 * n, q);
    assert(0 <= q <= x) by (nonlinear_arith)
        requires
            2 * n * q <= 2 * x * d + n,
            2 * x * d + n < 2 * n * q + 2 * n,
            0 <= x,
            0 < d <= n,
    ;
}

/// A quotient and what it divides differ by less than the divisor.
pub proof fn lemma_quotient(a: int, b: int, q: int)
    requires
        b > 0,
        q == a / b,
    ensures
        b * q <= a < b * q + b,
{
    vstd::arithmetic::div_mod::lemma_fundamental_div_mod(a, b);
}

proof fn lemma_total_out(segs: Seq<Segment>, k: int)
    requires
        0 <= k <= segs.len(),
        forall|j: int| 0 <= j < segs.len() ==> playable(#[trigger] segs[j]),
    ensures
        0 <= total_out(segs.take(k)) <= total_out(segs),
    decreases segs.len(),
{
    if segs.len() == 0 {
        assert(segs.take(k) == segs);
    } else {
        let front = segs.drop_last();
        assert forall|j: int| 0 <= j < front.len() implies playable(#[trigger] front[j]) by {
            assert(front[j] == segs[j]);
        }
        assert(playable(segs[segs.len() - 1]));
        lemma_out_length(segs.last());
        if k == segs.len() {
            assert(segs.take(k) == segs);
            lemma_total_out(front, front.len() as int);
            assert(front.take(front.len() as int) == front);
        } else {
            assert(segs.take(k) == front.take(k));
            lemma_total_out(front, k);
        }
    }
}

/// Lays the segments out on the output timeline. `None` when one runs
/// backwards or slower than recorded, or when they do not fit.
pub fn build_plan(
    segs: &Vec<Segment>,
    src_duration_us: i64,
    grid_len: usize,
    crop: String,
) -> (plan: Option<Plan>)
    ensures
        plan is Some <==> all_playable(segs@),
        plan matches Some(p) ==> {
            &&& p.segments@ == laid_out(segs@)
            &&& p.out_duration_us == total_out(segs@)
            &&& p.src_duration_us == src_duration_us
            &&& p.grid_len == grid_len
            &&& p.crop@ == crop@
            &&& p.wf()
        },
{
    let mut out: Vec<PlanSegment> = Vec::new();
    let mut cursor: i64 = 0;
    let mut k: usize = 0;
    while k < segs.len()
        invariant
            k <= segs@.len(),
            0 <= cursor <= TIME_MAX,
            cursor == total_out(segs@.take(k as int)),
            forall|j: int| 0 <= j < k ==> playable(#[trigger] segs@[j]),
            out@ == laid_out(segs@.take(k as int)),
            k > 0 ==> out@[k - 1].out_end == cursor,
            k > 0 ==> out@[0].out_start == 0,
            forall|j: int|
                0 <= j < k ==> {
                    let s = #[trigger] out@[j];
                    &&& s.source() == segs@[j]
                    &&& s.out_end - s.out_start == out_length(s.source())
                    &&& 0 <= s.out_start <= s.out_end <= cursor
                },
            forall|i: int, j: int|
                0 <= i && j == i + 1 && j < k ==> (#[trigger] out@[i]).out_end == (
                #[trigger] out@[j]).out_start,
        decreases segs@.len() - k,
    {
        let s = segs[k];
        if !(0 <= s.src_start && s.src_start <= s.src_end && s.src_end <= TIME_MAX && 0
            < s.speed.num && s.speed.num <= TIME_MAX && 0 < s.speed.den && s.speed.den <= TIME_MAX
            && s.speed.num >= s.speed.den) {
            assert(!playable(segs@[k as int]));
            return None;
        }
        assert(playable(segs@[k as int]));
        let len: i128 = scale_by(s.src_end - s.src_start, s.speed.den, s.speed.num);
        let ghost t = segs@.take(k as int);
        let ghost t1 = segs@.take(k + 1);
        assert(t1.drop_last() == t);
        assert(total_out(t1) == cursor + len);
        proof {
            lemma_out_length(s);
        }
        if cursor as i128 + len > TIME_MAX as i128 {
            proof {
                if all_playable(segs@) {
                    lemma_total_out(segs@, k + 1);
                }
            }
            return None;
        }
        let end: i64 = (cursor as i128 + len) as i64;
        let ghost before = out@;
        out.push(
            PlanSegment {
                src_start: s.src_start,
                src_end: s.src_end,
                speed: s.speed,
                out_start: cursor,
                out_end: end,
            },
        );
        proof {
            assert forall|j: int| 0 <= j < t1.len() implies out@[j] == laid_out(t1)[j] by {
                if j < k {
                    assert(t1.take(j) == t.take(j));
                    assert(t1.take(j + 1) == t.take(j + 1));
                    assert(out@[j] == before[j]);
                } else {
                    assert(t1.take(j) == t);
                    assert(t1.take(j + 1) == t1);
                }
            }
            assert(out@ == laid_out(t1));
        }
        cursor = end;
        k += 1;
    }
    assert(segs@.take(k as int) == segs@);
    Some(
        Plan {
            src_duration_us,
            out_duration_us: cursor,
            grid_len,
            crop,
            segments: out,
        },
    )
}

/// The first segment, from the `k`-th on, that is playing at output time `t`.
pub open spec fn playing_at(segs: Seq<PlanSegment>, t: int, k: int) -> Option<int>
    decreases segs.len() - k,
{
    if k >= segs.len() {
        None
    } else if segs[k].out_start <= t < segs[k].out_end {
        Some(k)
    } else {
        playing_at(segs, t, k + 1)
    }
}

/// The source time that plays at output time `t`.
pub open spec fn source_time(segs: Seq<PlanSegment>, t: int) -> Option<int> {
    match playing_at(segs, t, 0) {
        Some(k) => Some(
            segs[k].src_start + scaled(
                t - segs[k].out_start,
                segs[k].speed.num as int,
                segs[k].speed.den as int,
            ),
        ),
        None => None,
    }
}

/// The output time at which source time `t` plays, looking from the `k`-th
/// segment on. Removed material maps to the next kept moment.
pub open spec fn output_time_from(segs: Seq<PlanSegment>, t: int, k: int, out_duration: int) -> int
    decreases segs.len() - k,
{
    if k >= segs.len() {
        out_duration
    } else if t < segs[k].src_start {
        segs[k].out_start as int
    } else if t < segs[k].src_end {
        segs[k].out_start + scaled(
            t - segs[k].src_start,
            segs[k].speed.den as int,
            segs[k].speed.num as int,
        )
    } else {
        output_time_from(segs, t, k + 1, out_duration)
    }
}

/// The output time at which source time `t` plays.
pub open spec fn output_time(plan: Plan, t: int) -> int {
    output_time_from(plan.segments@, t, 0, plan.out_duration_us as int)
}

/// Going to the source and back loses nothing, and stays inside the segment.
proof fn lemma_scaled_back(len: int, into: int, num: int, den: int)
    requires
        0 < den <= num,
        0 <= len,
        0 <= into < scaled(len, den, num),
    ensures
        0 <= scaled(into, num, den) < len,
        scaled(scaled(into, num, den), den, num) == into,
{
    let r = scaled(len, den, num);
    let y = scaled(into, num, den);
    let z = scaled(y, den, num);
    lemma_quotient(2 * len * den + num, 2 * num, r);
    lemma_quotient(2 * into * num + den, 2 * den, y);
    lemma_quotient(2 * y * den + num, 2 * num, z);
    assert(0 <= y) by (nonlinear_arith)
        requires
            2 * into * num + den < 2 * den * y + 2 * den,
            0 <= into,
            0 < den <= num,
    ;
    if num == den {
        assert(y == into) by (nonlinear_arith)
            requires
                2 * den * y <= 2 * into * num + den < 2 * den * y + 2 * den,
                num == den,
                den > 0,
        ;
        assert(r <= len) by (nonlinear_arith)
            requires
                2 * num * r <= 2 * len * den + num,
                num == den,
                den > 0,
        ;
        assert(z == into) by (nonlinear_arith)
            requires
                2 * num * z <= 2 * y * den + num < 2 * num * z + 2 * num,
                y == into,
                num == den,
                den > 0,
        ;
    } else {
        assert(y < len) by (nonlinear_arith)
            requires
                2 * den * y <= 2 * into * num + den,
                2 * num * r <= 2 * len * den + num,
                into <= r - 1,
                0 < den < num,
        ;
        assert(z == into) by (nonlinear_arith)
            requires
                2 * den * y <= 2 * into * num + den < 2 * den * y + 2 * den,
                2 * num * z <= 2 * y * den + num < 2 * num * z + 2 * num,
                0 < den < num,
        ;
    }
}

/// The time map: the source time that plays at an output time.
pub fn map_to_source(plan: &Plan, out_t: i64) -> (src: Option<i64>)
    requires
        plan.segments_wf(),
    ensures
        match src {
            Some(t) => source_time(plan.segments@, out_t as int) == Some(t as int) && 0 <= t
                <= TIME_MAX,
            None => source_time(plan.segments@, out_t as int) is None,
        },
        plan.wf() ==> (src is Some <==> 0 <= out_t < plan.out_duration_us),
{
    proof {
        if plan.wf() {
            lemma_playing(*plan, out_t as int);
        }
    }
    let mut k: usize = 0;
    while k < plan.segments.len()
        invariant
            k <= plan.segments@.len(),
            plan.segments_wf(),
            playing_at(plan.segments@, out_t as int, 0) == playing_at(
                plan.segments@,
                out_t as int,
                k as int,
            ),
            plan.wf() ==> (playing_at(plan.segments@, out_t as int, 0) is Some <==> 0 <= out_t
                < plan.out_duration_us),
        decreases plan.segments@.len() - k,
    {
        let s = plan.segments[k];
        if s.out_start <= out_t && out_t < s.out_end {
            proof {
                lemma_out_length(s.source());
                lemma_scaled_back(
                    s.src_end - s.src_start,
                    out_t - s.out_start,
                    s.speed.num as int,
                    s.speed.den as int,
                );
            }
            let into: i128 = scale_by(out_t - s.out_start, s.speed.num, s.speed.den);
            return Some(s.src_start + into as i64);
        }
        k += 1;
    }
    None
}

/// A moment of the output always has a segment playing, and only one.
pub proof fn lemma_playing(plan: Plan, t: int)
    requires
        plan.wf(),
    ensures
        playing_at(plan.segments@, t, 0) is Some <==> 0 <= t < plan.out_duration_us,
        playing_at(plan.segments@, t, 0) matches Some(k) ==> 0 <= k < plan.segments@.len()
            && plan.segments@[k].out_start <= t < plan.segments@[k].out_end,
{
    lemma_playing_from(plan, t, 0);
}

pub proof fn lemma_playing_from(plan: Plan, t: int, k: int)
    requires
        plan.wf(),
        0 <= k <= plan.segments@.len(),
    ensures
        playing_at(plan.segments@, t, k) is Some <==> (k < plan.segments@.len()
            && plan.segments@[k].out_start <= t < plan.out_duration_us),
        playing_at(plan.segments@, t, k) matches Some(j) ==> k <= j < plan.segments@.len()
            && plan.segments@[j].out_start <= t < plan.segments@[j].out_end,
    decreases plan.segments@.len() - k,
{
    if k < plan.segments@.len() {
        lemma_playing_from(plan, t, k + 1);
        let s = plan.segments@[k];
        assert(0 <= s.out_start <= s.out_end <= plan.out_duration_us);
        if k + 1 < plan.segments@.len() {
            assert(plan.segments@[k].out_end == plan.segments@[k + 1].out_start);
        }
    }
}

/// The time map the other way: where a source time plays in the output.
/// Removed material maps to the next kept moment, and anything past the last
/// segment to the end.
pub fn map_to_output(plan: &Plan, t: i64) -> (out_t: i64)
    requires
        plan.wf(),
    ensures
        out_t == output_time(*plan, t as int),
        0 <= out_t <= plan.out_duration_us,
{
    let mut k: usize = 0;
    while k < plan.segments.len()
        invariant
            k <= plan.segments@.len(),
            plan.wf(),
            output_time(*plan, t as int) == output_time_from(
                plan.segments@,
                t as int,
                k as int,
                plan.out_duration_us as int,
            ),
        decreases plan.segments@.len() - k,
    {
        let s = plan.segments[k];
        assert(playable(plan.segments@[k as int].source()));
        if t < s.src_start {
            return s.out_start;
        }
        if t < s.src_end {
            proof {
                lemma_scaled_grows(
                    t - s.src_start,
                    s.src_end - s.src_start,
                    s.speed.den as int,
                    s.speed.num as int,
                );
                lemma_out_length(s.source());
            }
            let into: i128 = scale_by(t - s.src_start, s.speed.den, s.speed.num);
            return s.out_start + into as i64;
        }
        k += 1;
    }
    plan.out_duration_us
}

pub proof fn lemma_scaled_grows(a: int, b: int, num: int, den: int)
    requires
        0 <= a <= b,
        0 <= num,
        0 < den,
    ensures
        0 <= scaled(a, num, den) <= scaled(b, num, den),
{
    assert(0 <= 2 * a * num <= 2 * b * num) by (nonlinear_arith)
        requires
            0 <= a <= b,
            0 <= num,
    ;
    vstd::arithmetic::div_mod::lemma_div_is_ordered(
        2 * a * num + den,
        2 * b * num + den,
        2 * den,
    );
    vstd::arithmetic::div_mod::lemma_div_pos_is_pos(2 * a * num + den, 2 * den);
}

/// The plan takes its segments in source order.
pub open spec fn plan_in_order(segs: Seq<PlanSegment>) -> bool {
    forall|k: int, l: int|
        0 <= k < l < segs.len() ==> (#[trigger] segs[k]).src_end <= (#[trigger] segs[l]).src_start
}

/// The time map is exact both ways: every output moment comes from a source
/// moment that maps back to it.
pub proof fn law_time_map_round_trip(plan: Plan, t: int)
    requires
        plan.wf(),
        plan_in_order(plan.segments@),
        0 <= t < plan.out_duration_us,
    ensures
        source_time(plan.segments@, t) is Some,
        output_time(plan, source_time(plan.segments@, t).unwrap()) == t,
{
    lemma_playing(plan, t);
    let segs = plan.segments@;
    let k = playing_at(segs, t, 0).unwrap();
    let s = segs[k];
    let src = source_time(segs, t).unwrap();
    assert(playable(s.source()));
    lemma_scaled_back(
        s.src_end - s.src_start,
        t - s.out_start,
        s.speed.num as int,
        s.speed.den as int,
    );
    lemma_output_skips(plan, src, 0, k);
}

/// Segments that end before a source time are passed over.
proof fn lemma_output_skips(plan: Plan, t: int, j: int, k: int)
    requires
        plan.wf(),
        plan_in_order(plan.segments@),
        0 <= j <= k < plan.segments@.len(),
        plan.segments@[k].src_start <= t,
    ensures
        output_time_from(plan.segments@, t, j, plan.out_duration_us as int) == output_time_from(
            plan.segments@,
            t,
            k,
            plan.out_duration_us as int,
        ),
    decreases k - j,
{
    if j < k {
        assert(playable(plan.segments@[j].source()));
        assert(plan.segments@[j].src_end <= plan.segments@[k].src_start);
        lemma_output_skips(plan, t, j + 1, k);
    }
}

/// The output never runs backwards through the source: a later moment of the
/// output plays no earlier moment of the source.
pub proof fn law_output_moves_forward(plan: Plan, t1: int, t2: int)
    requires
        plan.wf(),
        plan_in_order(plan.segments@),
        0 <= t1 <= t2 < plan.out_duration_us,
    ensures
        source_time(plan.segments@, t1) is Some,
        source_time(plan.segments@, t2) is Some,
        source_time(plan.segments@, t1).unwrap() <= source_time(plan.segments@, t2).unwrap(),
{
    lemma_playing(plan, t1);
    lemma_playing(plan, t2);
    let segs = plan.segments@;
    let j = playing_at(segs, t1, 0).unwrap();
    let k = playing_at(segs, t2, 0).unwrap();
    assert(playable(segs[j].source()));
    assert(playable(segs[k].source()));
    if j == k {
        lemma_scaled_grows(
            t1 - segs[j].out_start,
            t2 - segs[j].out_start,
            segs[j].speed.num as int,
            segs[j].speed.den as int,
        );
    } else {
        lemma_out_ordered(plan, j, k);
        lemma_out_ordered(plan, k, j);
        lemma_scaled_back(
            segs[j].src_end - segs[j].src_start,
            t1 - segs[j].out_start,
            segs[j].speed.num as int,
            segs[j].speed.den as int,
        );
        lemma_scaled_grows(
            0,
            t2 - segs[k].out_start,
            segs[k].speed.num as int,
            segs[k].speed.den as int,
        );
    }
}

proof fn lemma_out_ordered(plan: Plan, j: int, k: int)
    requires
        plan.wf(),
        0 <= j < plan.segments@.len(),
        0 <= k < plan.segments@.len(),
    ensures
        j < k ==> plan.segments@[j].out_end <= plan.segments@[k].out_start,
    decreases k - j,
{
    if j + 1 < k {
        lemma_out_ordered(plan, j, k - 1);
        assert(plan.segments@[k - 1].out_start <= plan.segments@[k - 1].out_end);
        assert(plan.segments@[k - 1].out_end == plan.segments@[k].out_start);
    } else if j < k {
        assert(plan.segments@[j].out_end == plan.segments@[k].out_start);
    }
}

/// Looking from the `k`-th segment on, nothing plays before that segment does or
/// after the end, and a later source moment plays no earlier.
proof fn lemma_output_time_from(plan: Plan, t1: int, t2: int, k: int)
    requires
        plan.wf(),
        t1 <= t2,
        0 <= k <= plan.segments@.len(),
    ensures
        ({
            let segs = plan.segments@;
            let d = plan.out_duration_us as int;
            &&& output_time_from(segs, t1, k, d) <= output_time_from(segs, t2, k, d) <= d
            &&& output_time_from(segs, t1, k, d) >= (if k < segs.len() {
                segs[k].out_start as int
            } else {
                d
            })
        }),
    decreases plan.segments@.len() - k,
{
    let segs = plan.segments@;
    if k < segs.len() {
        let s = segs[k];
        assert(playable(s.source()));
        let (num, den) = (s.speed.num as int, s.speed.den as int);
        lemma_output_time_from(plan, t1, t2, k + 1);
        lemma_output_time_from(plan, t2, t2, k + 1);
        if s.src_start <= t1 < s.src_end {
            lemma_scaled_grows(t1 - s.src_start, s.src_end - s.src_start, den, num);
            if t2 < s.src_end {
                lemma_scaled_grows(t1 - s.src_start, t2 - s.src_start, den, num);
            }
        }
        if s.src_start <= t2 < s.src_end {
            lemma_scaled_grows(t2 - s.src_start, s.src_end - s.src_start, den, num);
        }
        if k + 1 < segs.len() {
            assert(segs[k].out_end == segs[k + 1].out_start);
        }
    }
}

/// The time map to the output never goes back: a later source moment plays no
/// earlier, and every one of them plays inside the output.
pub proof fn law_output_time_never_goes_back(plan: Plan, t1: int, t2: int)
    requires
        plan.wf(),
        t1 <= t2,
    ensures
        0 <= output_time(plan, t1) <= output_time(plan, t2) <= plan.out_duration_us,
{
    lemma_output_time_from(plan, t1, t2, 0);
}

// ---------------------------------------------------------------------------
// Laws
// ---------------------------------------------------------------------------
/// What becomes of a dead run goes by its length and by nothing else. It stays
/// as it is where the pacing keeps dead air or the run is shorter than the
/// pause floor. It is sped up where the pacing speeds dead air up and the run
/// lasts four seconds or more. Any other run collapses to half a second, or
/// stays whole where it is shorter than that.
pub proof fn law_length_decides_what_becomes_of_a_run(len: int, pacing: Pacing)
    requires
        pacing.wf(),
        0 <= len <= 1_000_000_000_000_000_000,
    ensures
        decision(len, pacing) is Keep <==> pacing.dead_air is Keep || len < pacing.pause_floor_us,
        decision(len, pacing) is Speed <==> pacing.dead_air is Speed && len
            >= pacing.pause_floor_us && len >= 4_000_000,
        decision(len, pacing) matches Action::Collapse { to_us } ==> to_us == len && len < 500_000
            || to_us == 500_000 && len >= 500_000,
{
}

/// A sped-up run plays for a twelfth of its length, but for no less than 1.2 s
/// and no more than 6 s, unless that asks for more than the cap: then the speed
/// is the cap. So a run of at most 120 s plays for at most 6 s under any cap of
/// twenty or more.
pub proof fn law_sped_up_runs_play_briefly(len: int, pacing: Pacing)
    requires
        pacing.wf(),
        0 <= len <= 1_000_000_000_000_000_000,
    ensures
        decision(len, pacing) matches Action::Speed { factor } ==> {
            let (num, den) = (factor.num as int, factor.den as int);
            &&& 0 < den <= num
            &&& num * 1_000_000 <= pacing.max_speed * den
            &&& num * 1_000_000 == pacing.max_speed * den || {
                &&& 1_200_000 * num <= len * den <= 6_000_000 * num
                &&& 14_400_000 <= len <= 72_000_000 ==> num == 12 * den
                &&& len <= 14_400_000 ==> len * den == 1_200_000 * num
                &&& len >= 72_000_000 ==> len * den == 6_000_000 * num
            }
            &&& num * 1_000_000 == pacing.max_speed * den ==> {
                &&& len * den >= 1_200_000 * num
                &&& num <= 12 * den || len * den >= 6_000_000 * num
            }
            &&& pacing.max_speed >= 20_000_000 && len <= 120_000_000 ==> len * den <= 6_000_000
                * num
        },
{
    if let Action::Speed { factor } = decision(len, pacing) {
        let s = unbounded_speed(len);
        let max = pacing.max_speed as int;
        let (num, den) = (factor.num as int, factor.den as int);
        if s.num * 1_000_000 > max * s.den {
            assert(den == 1_000_000 && num == max);
            if len <= 14_400_000 {
                assert(len * 1_000_000 > max * 1_200_000);
            } else if len < 72_000_000 {
                assert(12_000_000 > max);
            } else {
                assert(len * 1_000_000 > max * 6_000_000);
            }
            assert(len * den == len * 1_000_000) by (nonlinear_arith)
                requires
                    den == 1_000_000,
            ;
        } else {
            assert(factor == s);
            if len <= 14_400_000 {
                assert(len * den == len * 1_200_000) by (nonlinear_arith)
                    requires
                        den == 1_200_000,
                ;
            } else if len < 72_000_000 {
                assert(len * den == len) by (nonlinear_arith)
                    requires
                        den == 1,
                ;
            } else {
                assert(len * den == len * 6_000_000) by (nonlinear_arith)
                    requires
                        den == 6_000_000,
                ;
            }
        }
    }
}

/// The segment plays something of the recording between the two moments.
pub open spec fn touches(s: Segment, from: int, to: int) -> bool {
    s.src_start < to && from < s.src_end
}

#[verifier::rlimit(40)]
proof fn lemma_changed_run(runs: Seq<(usize, usize)>, pacing: Pacing, n: int, k: int)
    requires
        0 <= n,
        pacing.wf(),
        runs_fit(runs, n),
        ordered_runs(runs, n),
        0 <= k < runs.len(),
    ensures
        ({
            let (segs, cursor) = segments_upto(runs, pacing);
            let (a, b) = (slices_us(runs[k].0 as int), slices_us(runs[k].1 as int));
            match decision(slices_us(runs[k].1 - runs[k].0), pacing) {
                Action::Keep => true,
                Action::Collapse { to_us } => cursor >= runs[k].1 && exists|j: int|
                    0 <= j < segs.len() && #[trigger] segs[j] == normal_segment(a, a + to_us) && (
                    forall|l: int| j < l < segs.len() ==> b <= (#[trigger] segs[l]).src_start),
                Action::Speed { factor } => cursor >= runs[k].1 && exists|j: int|
                    0 <= j < segs.len() && #[trigger] segs[j] == segment(a, b, factor),
            }
        }),
    decreases runs.len(),
{
    let front = runs.drop_last();
    assert forall|i: int| 0 <= i < front.len() implies (#[trigger] front[i]).0 <= front[i].1
        <= n by {
        assert(runs[i].0 <= runs[i].1);
    }
    assert(ordered_runs(front, n));
    assert(runs_fit(front, n));
    lemma_segments_upto(front, pacing, n);
    lemma_segments_upto(runs, pacing, n);
    let (segs, cursor) = segments_upto(front, pacing);
    let (segs2, cursor2) = segments_upto(runs, pacing);
    let last = (runs.len() - 1) as int;
    assert(runs[last].0 <= runs[last].1 <= n);
    assert(cursor <= runs[last].0) by {
        if front.len() > 0 {
            assert(runs[last - 1].1 <= runs[last].0);
        }
    }
    let (a, b) = (slices_us(runs[k].0 as int), slices_us(runs[k].1 as int));
    assert(slices_us(n) <= TIME_MAX);
    if k == last {
        let j = segs2.len() - 1;
        match decision(slices_us(runs[k].1 - runs[k].0), pacing) {
            Action::Keep => {},
            Action::Collapse { to_us } => {
                assert(segs2[j] == normal_segment(a, a + to_us));
            },
            Action::Speed { factor } => {
                assert(segs2[j] == segment(a, b, factor));
            },
        }
    } else {
        assert(front[k] == runs[k]);
        lemma_changed_run(front, pacing, n, k);
        assert(forall|j: int| 0 <= j < segs.len() ==> #[trigger] segs2[j] == segs[j]);
        assert(forall|j: int|
            segs.len() <= j < segs2.len() ==> slices_us(cursor) <= (#[trigger] segs2[j]).src_start);
        assert(cursor <= cursor2);
        match decision(slices_us(runs[k].1 - runs[k].0), pacing) {
            Action::Keep => {},
            Action::Collapse { to_us } => {
                let j = choose|j: int|
                    0 <= j < segs.len() && #[trigger] segs[j] == normal_segment(a, a + to_us) && (
                    forall|l: int| j < l < segs.len() ==> b <= (#[trigger] segs[l]).src_start);
                assert(segs2[j] == segs[j]);
                assert forall|l: int| j < l < segs2.len() implies b <= (
                #[trigger] segs2[l]).src_start by {
                    if l < segs.len() {
                        assert(segs2[l] == segs[l]);
                    }
                }
            },
            Action::Speed { factor } => {
                let j = choose|j: int|
                    0 <= j < segs.len() && #[trigger] segs[j] == segment(a, b, factor);
                assert(segs2[j] == segs[j]);
            },
        }
    }
}

/// A changed run becomes what was decided for it: a sped-up one plays from its
/// first slice to its last at the speed decided, a collapsed one plays its
/// beginning as recorded for as long as was decided and nothing else of it.
/// A slice is 20 ms.
pub proof fn law_a_run_becomes_what_was_decided(
    runs: Seq<(usize, usize)>,
    grid_len: int,
    src_duration: int,
    pacing: Pacing,
    k: int,
)
    requires
        pacing.wf(),
        runs_fit(runs, grid_len),
        ordered_runs(runs, grid_len),
        0 <= grid_len,
        slices_us(grid_len) <= src_duration <= TIME_MAX,
        0 <= k < runs.len(),
    ensures
        ({
            let segs = segments_of(runs, grid_len, src_duration, pacing);
            let (a, b) = (20_000 * runs[k].0, 20_000 * runs[k].1);
            match decision(b - a, pacing) {
                Action::Keep => true,
                Action::Collapse { to_us } => exists|j: int|
                    0 <= j < segs.len() && (#[trigger] segs[j]).src_start == a && segs[j].src_end
                        == a + to_us && segs[j].speed.num == segs[j].speed.den && (forall|l: int|
                        0 <= l < segs.len() && l != j ==> !touches(#[trigger] segs[l], a, b)),
                Action::Speed { factor } => exists|j: int|
                    0 <= j < segs.len() && (#[trigger] segs[j]).src_start == a && segs[j].src_end
                        == b && segs[j].speed == factor,
            }
        }),
{
    lemma_changed_run(runs, pacing, grid_len, k);
    law_only_dead_air_changes(runs, grid_len, src_duration, pacing);
    let (segs, cursor) = segments_upto(runs, pacing);
    let all = segments_of(runs, grid_len, src_duration, pacing);
    let (a, b) = (slices_us(runs[k].0 as int), slices_us(runs[k].1 as int));
    assert(runs[k].0 <= runs[k].1 <= grid_len);
    assert(a == 20_000 * runs[k].0 && b == 20_000 * runs[k].1);
    assert(slices_us(runs[k].1 - runs[k].0) == b - a);
    match decision(b - a, pacing) {
        Action::Keep => {},
        Action::Collapse { to_us } => {
            let j = choose|j: int|
                0 <= j < segs.len() && #[trigger] segs[j] == normal_segment(a, a + to_us) && (
                forall|l: int| j < l < segs.len() ==> b <= (#[trigger] segs[l]).src_start);
            assert(all[j] == segs[j]);
            assert forall|l: int| 0 <= l < all.len() && l != j implies !touches(
                #[trigger] all[l],
                a,
                b,
            ) by {
                if l < j {
                    assert(all[l].src_end <= all[j].src_start);
                } else if l < segs.len() {
                    assert(all[l] == segs[l]);
                }
            }
            assert(all[j].src_start == a && all[j].src_end == a + to_us);
        },
        Action::Speed { factor } => {
            let j = choose|j: int|
                0 <= j < segs.len() && #[trigger] segs[j] == segment(a, b, factor);
            assert(all[j] == segs[j]);
            assert(all[j].src_start == a && all[j].src_end == b);
        },
    }
}

/// Some segment plays the source moment `t` at that speed.
pub open spec fn plays_at(segs: Seq<Segment>, t: int, speed: Speed) -> bool {
    exists|k: int|
        0 <= k < segs.len() && (#[trigger] segs[k]).speed.equals(speed) && plays(segs[k], t)
}

proof fn lemma_equal_speeds(a: Speed, b: Speed, c: Speed)
    requires
        a.wf(),
        b.wf(),
        a.equals(b),
    ensures
        a.equals(c) <==> b.equals(c),
{
    let (an, ad, bn, bd) = (a.num as int, a.den as int, b.num as int, b.den as int);
    let (cn, cd) = (c.num as int, c.den as int);
    assert((an * cd == cn * ad) <==> (bn * cd == cn * bd)) by (nonlinear_arith)
        requires
            an * bd == bn * ad,
            an > 0,
            ad > 0,
            bn > 0,
            bd > 0,
    {
        assert((an * cd) * bd == (bn * cd) * ad);
        assert((cn * ad) * bd == (cn * bd) * ad);
    }
}

/// Merging changes no speed: a moment plays at a speed after it exactly when it
/// did before.
pub proof fn law_merging_keeps_every_speed(segs: Seq<Segment>, t: int, speed: Speed)
    requires
        forall|k: int|
            0 <= k < segs.len() ==> (#[trigger] segs[k]).src_start <= segs[k].src_end
                && segs[k].speed.wf(),
    ensures
        plays_at(merged(segs), t, speed) <==> plays_at(segs, t, speed),
    decreases segs.len(),
{
    if segs.len() > 0 {
        let front = segs.drop_last();
        let n = front.len() as int;
        let s = segs.last();
        assert(s == segs[n]);
        assert forall|k: int| 0 <= k < front.len() implies (#[trigger] front[k]).src_start
            <= front[k].src_end && front[k].speed.wf() by {
            assert(front[k] == segs[k]);
        }
        law_merging_keeps_every_speed(front, t, speed);
        law_merging_keeps_what_plays(front, t);
        let r = merged(front);
        let m = merged(segs);
        let joins = r.len() > 0 && continues(r.last(), s);
        if joins {
            assert(r[r.len() - 1].src_start <= r[r.len() - 1].src_end && r[r.len()
                - 1].speed.wf());
            lemma_equal_speeds(r.last().speed, s.speed, speed);
        }
        if plays_at(segs, t, speed) {
            let k = choose|k: int|
                0 <= k < segs.len() && (#[trigger] segs[k]).speed.equals(speed) && plays(
                    segs[k],
                    t,
                );
            if k < n {
                assert(front[k] == segs[k]);
                assert(plays_at(front, t, speed));
                let j = choose|j: int|
                    0 <= j < r.len() && (#[trigger] r[j]).speed.equals(speed) && plays(r[j], t);
                if j == r.len() - 1 && joins {
                    assert(m[j].speed.equals(speed) && plays(m[j], t));
                } else {
                    assert(m[j] == r[j]);
                }
            } else if joins {
                assert(m[m.len() - 1].speed.equals(speed) && plays(m[m.len() - 1], t));
            } else {
                assert(m[m.len() - 1] == s);
            }
        }
        if plays_at(m, t, speed) {
            let j = choose|j: int|
                0 <= j < m.len() && (#[trigger] m[j]).speed.equals(speed) && plays(m[j], t);
            if joins && j == m.len() - 1 {
                if t < s.src_start {
                    assert(r[r.len() - 1].speed.equals(speed) && plays(r[r.len() - 1], t));
                    assert(plays_at(r, t, speed));
                } else {
                    assert(segs[n].speed.equals(speed) && plays(segs[n], t));
                }
            } else if j < r.len() {
                assert(m[j] == r[j]);
                assert(plays_at(r, t, speed));
            } else {
                assert(segs[n].speed.equals(speed) && plays(segs[n], t));
            }
            if plays_at(r, t, speed) {
                let k = choose|k: int|
                    0 <= k < front.len() && (#[trigger] front[k]).speed.equals(speed) && plays(
                        front[k],
                        t,
                    );
                assert(segs[k] == front[k]);
            }
        }
    }
}

/// Scaling is exact to the nearest whole number: what comes out is off by at
/// most a half, and a half goes up.
pub proof fn law_scaling_goes_to_the_nearest(x: int, num: int, den: int)
    requires
        den > 0,
    ensures
        2 * x * num - den < 2 * den * scaled(x, num, den) <= 2 * x * num + den,
{
    lemma_quotient(2 * x * num + den, 2 * den, scaled(x, num, den));
}

/// A plan plays its segments in order, without a gap or an overlap, from zero.
/// Each plays for its length divided by its speed, to the nearest microsecond,
/// and keeps the stretch of source and the speed that it had.
pub proof fn law_segments_are_laid_end_to_end(segs: Seq<Segment>, k: int)
    requires
        all_playable(segs),
        0 <= k < segs.len(),
    ensures
        laid_out(segs).len() == segs.len(),
        laid_out(segs)[k].src_start == segs[k].src_start,
        laid_out(segs)[k].src_end == segs[k].src_end,
        laid_out(segs)[k].speed == segs[k].speed,
        laid_out(segs)[k].out_start == (if k == 0 {
            0int
        } else {
            laid_out(segs)[k - 1].out_end as int
        }),
        ({
            let s = laid_out(segs)[k];
            let (len, out) = (s.src_end - s.src_start, s.out_end - s.out_start);
            2 * len * s.speed.den - s.speed.num < 2 * s.speed.num * out <= 2 * len * s.speed.den
                + s.speed.num
        }),
        total_out(segs) == laid_out(segs).last().out_end,
{
    lemma_total_out(segs, k);
    lemma_total_out(segs, k + 1);
    lemma_total_out(segs, segs.len() as int);
    assert(segs.take(segs.len() as int) =~= segs);
    assert(segs.take(k + 1).drop_last() =~= segs.take(k));
    if k == 0 {
        assert(segs.take(0).len() == 0);
    } else {
        lemma_total_out(segs, k - 1);
    }
    let s = laid_out(segs)[k];
    assert(playable(segs[k]));
    law_scaling_goes_to_the_nearest(
        s.src_end - s.src_start,
        s.speed.den as int,
        s.speed.num as int,
    );
}

/// While a segment plays, the source moves on from its start at its speed, to
/// the nearest microsecond. At normal speed that is exact.
pub proof fn law_a_segment_plays_at_its_speed(plan: Plan, k: int, t: int)
    requires
        plan.wf(),
        0 <= k < plan.segments@.len(),
        plan.segments@[k].out_start <= t < plan.segments@[k].out_end,
    ensures
        source_time(plan.segments@, t) is Some,
        ({
            let s = plan.segments@[k];
            let into = source_time(plan.segments@, t).unwrap() - s.src_start;
            &&& 0 <= into < s.src_end - s.src_start
            &&& 2 * (t - s.out_start) * s.speed.num - s.speed.den < 2 * s.speed.den * into <= 2 * (
            t - s.out_start) * s.speed.num + s.speed.den
            &&& s.speed.num == s.speed.den ==> into == t - s.out_start
        }),
{
    let segs = plan.segments@;
    lemma_playing(plan, t);
    let j = playing_at(segs, t, 0).unwrap();
    lemma_out_ordered(plan, j, k);
    lemma_out_ordered(plan, k, j);
    assert(j == k);
    let s = segs[k];
    assert(playable(s.source()));
    let (num, den) = (s.speed.num as int, s.speed.den as int);
    lemma_scaled_back(s.src_end - s.src_start, t - s.out_start, num, den);
    law_scaling_goes_to_the_nearest(t - s.out_start, num, den);
    if num == den {
        lemma_scaled_by_one(t - s.out_start, num);
    }
}

proof fn lemma_scaled_by_one(x: int, n: int)
    requires
        n > 0,
    ensures
        scaled(x, n, n) == x,
{
    let q = scaled(x, n, n);
    lemma_quotient(2 * x * n + n, 2 * n, q);
    assert(q == x) by (nonlinear_arith)
        requires
            n > 0,
            2 * n * q <= 2 * x * n + n < 2 * n * q + 2 * n,
    ;
}

/// A source moment that a segment plays is placed inside that segment, as far
/// in as the speed makes it, to the nearest microsecond. Where the segment
/// plays as recorded, the source that plays there is that very moment.
pub proof fn law_a_played_moment_is_found_where_it_plays(plan: Plan, k: int, t: int)
    requires
        plan.wf(),
        plan_in_order(plan.segments@),
        0 <= k < plan.segments@.len(),
        plan.segments@[k].src_start <= t < plan.segments@[k].src_end,
    ensures
        ({
            let s = plan.segments@[k];
            let into = output_time(plan, t) - s.out_start;
            &&& 0 <= into <= s.out_end - s.out_start
            &&& 2 * (t - s.src_start) * s.speed.den - s.speed.num < 2 * s.speed.num * into <= 2 * (
            t - s.src_start) * s.speed.den + s.speed.num
            &&& s.speed.num == s.speed.den ==> into == t - s.src_start && source_time(
                plan.segments@,
                output_time(plan, t),
            ) == Some(t)
        }),
{
    let segs = plan.segments@;
    let s = segs[k];
    assert(playable(s.source()));
    let (num, den) = (s.speed.num as int, s.speed.den as int);
    lemma_output_skips(plan, t, 0, k);
    lemma_scaled_grows(t - s.src_start, s.src_end - s.src_start, den, num);
    law_scaling_goes_to_the_nearest(t - s.src_start, den, num);
    if num == den {
        lemma_scaled_by_one(t - s.src_start, num);
        lemma_scaled_by_one(s.src_end - s.src_start, num);
        law_a_segment_plays_at_its_speed(plan, k, output_time(plan, t));
    }
}

/// A source moment that is not played is placed where the next one that is
/// played comes up, and at the end where there is none.
pub proof fn law_a_removed_moment_maps_to_the_next_kept(plan: Plan, k: int, t: int)
    requires
        plan.wf(),
        0 <= k <= plan.segments@.len(),
        forall|j: int| 0 <= j < k ==> (#[trigger] plan.segments@[j]).src_end <= t,
        k < plan.segments@.len() ==> t < plan.segments@[k].src_start,
    ensures
        output_time(plan, t) == (if k < plan.segments@.len() {
            plan.segments@[k].out_start as int
        } else {
            plan.out_duration_us as int
        }),
{
    lemma_removed(plan, 0, k, t);
}

proof fn lemma_removed(plan: Plan, j: int, k: int, t: int)
    requires
        plan.wf(),
        0 <= j <= k <= plan.segments@.len(),
        forall|i: int| 0 <= i < k ==> (#[trigger] plan.segments@[i]).src_end <= t,
        k < plan.segments@.len() ==> t < plan.segments@[k].src_start,
    ensures
        output_time_from(plan.segments@, t, j, plan.out_duration_us as int) == (if k
            < plan.segments@.len() {
            plan.segments@[k].out_start as int
        } else {
            plan.out_duration_us as int
        }),
    decreases k - j,
{
    if j < k {
        assert(playable(plan.segments@[j].source()));
        assert(plan.segments@[j].src_end <= t);
        lemma_removed(plan, j + 1, k, t);
    }
}

} // verus!
