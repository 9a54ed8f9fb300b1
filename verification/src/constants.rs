//! Project-wide constants.
//!
//! Times are in microseconds; levels, loudness and ratios in millionths.
//!
//! POLICY values may be nudged by the monitor loop or set by the prompt.
//! GUARDS are invariants: they make unsafe cuts unavailable, and nothing
//! outside this file may widen them.
use vstd::prelude::*;

verus! {

/// The largest time the library handles, either side of zero: some thirty
/// thousand years. Sums of a few times then always fit.
pub const TIME_MAX: i64 = 1_000_000_000_000_000_000;

// ---------------------------------------------------------------------------
// The time grid
// ---------------------------------------------------------------------------
/// One grid slice. Every mask indexes on this.
pub const GRID_US: i64 = 20_000;

/// Energy analysis window, in samples at [`SAMPLE_RATE`]: 32 ms. Frames hop
/// by [`ENERGY_US`], so neighbours overlap.
pub const ENERGY_WIN: usize = 512;

/// Energy frame hop. Slice `i` covers energy frames `2i` and `2i + 1`.
pub const ENERGY_US: i64 = 10_000;

/// Analysis audio rate, fixed by the speech models.
pub const SAMPLE_RATE: u32 = 16000;

/// Samples per grid slice. The trailing partial slice is dropped, so the grid
/// length and the duration of the source are separate values.
pub const SAMPLES_PER_SLICE: usize = 320;

// ---------------------------------------------------------------------------
// Content region detection
// ---------------------------------------------------------------------------
/// Downscaled frame width for activity measurement.
pub const GRID_W: usize = 160;

/// Downscaled frame height for activity measurement.
pub const GRID_H: usize = 90;

/// Frames sampled across the whole file.
pub const SAMPLE_FRAMES: usize = 200;

/// Below this peak activity, no content region exists at all.
pub const ACTIVITY_MIN: i64 = 2_000_000;

/// A cell is content above this fraction of the file's own maximum.
pub const ACTIVITY_RATIO: i64 = 80_000;

/// Mean pixel difference above which a blob counts as moving in a frame.
pub const BUSY_DIFF: i64 = 500_000;

/// Blobs smaller than this are ignored.
pub const MIN_BLOB: usize = 50;

/// Above this fraction of frames moving, a blob is a camera, not content.
pub const MAX_BUSY: i64 = 900_000;

// ---------------------------------------------------------------------------
// Speech mask
// ---------------------------------------------------------------------------
/// Speech model window, in samples: 32 ms, which does not divide the grid, so
/// a slice takes the chunk that contains its midpoint sample.
pub const VAD_CHUNK: usize = 512;

/// POLICY. Probability at which speech starts.
pub const VAD_ENTER: i64 = 300_000;

/// Probability below which speech ends. The gap from [`VAD_ENTER`] stops a
/// mid-sentence dip splitting one run into two.
pub const VAD_EXIT: i64 = 150_000;

/// The exit threshold sits this far below the enter threshold.
pub const VAD_HYSTERESIS: i64 = 150_000;

/// ... but never under this.
pub const VAD_EXIT_FLOOR: i64 = 10_000;

/// Gaps shorter than this become speech.
pub const BRIDGE_GAP_US: i64 = 350_000;

/// Speech runs shorter than this are dropped as blips.
pub const MIN_SPEECH_US: i64 = 250_000;

/// Speech is extended backwards by this, so a cut never lands on an onset.
pub const PAD_BEFORE_US: i64 = 500_000;

/// Speech is extended forwards by this: it trails off rather than stopping.
pub const PAD_AFTER_US: i64 = 550_000;

// ---------------------------------------------------------------------------
// Freeze detection
// ---------------------------------------------------------------------------
/// Noise floor for calling two frames identical.
pub const FREEZE_NOISE_DB: &'static str = "-58dB";

/// Minimum stillness before a freeze block is reported.
pub const FREEZE_MIN_US: i64 = 2_000_000;

/// Sampling rate for freeze detection.
pub const FREEZE_FPS: u32 = 5;

// ---------------------------------------------------------------------------
// Loudness
// ---------------------------------------------------------------------------
/// The analysis copy is normalised here before any level threshold applies.
pub const TARGET_LUFS: i64 = -23_000_000;

/// Delivery target for the finished programme.
pub const MASTER_LUFS: i64 = -14_000_000;

/// What the limiter costs. It is added to the target that loudnorm is asked
/// for, so that the delivered programme lands on the target itself.
pub const LIMITER_COMP: i64 = 50_000;

// ---------------------------------------------------------------------------
// GUARDS
//
// The disfluency score rewards removing more seconds. It is honest only
// because these make damaging cuts unavailable. Not parameters.
// ---------------------------------------------------------------------------
/// Both splice points must be quieter than this: 21.78 dB under programme.
pub const QUIET_DB: i64 = -44_780_000;

/// Speech-level energy: 15.78 dB under programme. Dead-air run boundaries are
/// trimmed back from it.
pub const GATE_DB: i64 = -38_780_000;

/// Minimum contiguous quiet stretch around a splice point.
pub const QUIET_RUN_US: i64 = 100_000;

/// How far a splice may move to find a quiet point.
pub const SNAP_US: i64 = 350_000;

/// How far the edge guard may search from a run boundary.
pub const MAX_SHRINK_US: i64 = 3_000_000;

/// Smoothing window for the edge guard only: wide enough that a mouse click
/// cannot trip it.
pub const EDGE_SMOOTH_US: i64 = 100_000;

/// Smoothing window for the splice test and the quiet-run guard.
pub const SPLICE_SMOOTH_US: i64 = 30_000;

/// Extra backoff past the last loud frame.
pub const EDGE_MARGIN_US: i64 = 150_000;

/// A dead run may never be trimmed below this. Also the planner's floor.
pub const MIN_DEAD_US: i64 = 1_000_000;

/// Dead runs closer than this are merged before the length rules apply.
pub const DEAD_BRIDGE_US: i64 = 2_000_000;

/// The atempo filter accepts at most this; higher speeds chain instances.
pub const ATEMPO_MAX: i64 = 2;

/// Removes rumble below speech.
pub const HIGHPASS_HZ: u32 = 75;

/// True-peak ceiling for the delivered programme.
pub const MASTER_TP: i64 = -1_500_000;

/// Hard ceiling held into the AAC encode, as linear amplitude: -2.0 dBFS.
pub const LIMITER_CEILING: i64 = 794_000;

/// Applied only when flat gain to the target would exceed [`MASTER_TP`].
pub const COMPRESSOR: &'static str =
    "acompressor=threshold=-28dB:ratio=3:attack=10:release=250:makeup=8";

// ---------------------------------------------------------------------------
// Disfluency removal: cutting inside speech
// ---------------------------------------------------------------------------
/// Shortest cut worth making.
pub const MIN_CUT_US: i64 = 150_000;

/// Longest disfluency cut: one cap for every kind.
pub const MAX_CUT_US: i64 = 9_500_000;

/// Silence deliberately left behind at a splice so words do not butt together.
pub const KEEP_GAP_US: i64 = 140_000;

/// A filler is detachable only with at least this much space before it.
pub const FILLER_GAP_US: i64 = 180_000;

/// Longest a word may be and still count as a filler.
pub const FILLER_MAX_US: i64 = 850_000;

/// How much of the pause after a filler may go with it.
pub const FILLER_TAIL_US: i64 = 600_000;

/// A filler cut starts at most this much before the word itself.
pub const FILLER_LEAD_US: i64 = 60_000;

/// A filler cut stops at least this much before the next word.
pub const FILLER_STOP_US: i64 = 20_000;

/// Repeated adjacent words further apart than this are not a stutter.
pub const STUTTER_GAP_US: i64 = 900_000;

/// Shortest repeated phrase worth cutting, in words.
pub const MIN_PHRASE: usize = 4;

/// Longest repeated phrase looked for, in words.
pub const MAX_PHRASE: usize = 7;

/// Consecutive takes of a repeat must be this close, or the span between them
/// is real content rather than a restart.
pub const MAX_TAKE_GAP_US: i64 = 3_000_000;

/// Spectral correlation required to believe two takes are the same phrase.
pub const SIM_MIN: i64 = 550_000;

/// How far ahead, in words, to look for the next take of a phrase.
pub const SEARCH_WORDS: usize = 40;

/// Accepted cuts must be at least this far apart, not merely non-overlapping.
pub const CUT_SPACING_US: i64 = 80_000;

} // verus!
