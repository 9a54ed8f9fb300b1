//! Decision logic of a verified video editor.
use vstd::prelude::*;

pub mod ai;
pub mod align;
pub mod audio;
pub mod calibrate;
pub mod captions;
pub mod cli;
pub mod constants;
pub mod crop;
pub mod cues;
pub mod dead_air;
pub mod disfluency;
pub mod dsp;
pub mod edit;
pub mod features;
pub mod freeze;
pub mod mask;
pub mod master;
pub mod num;
pub mod order;
pub mod plan;
pub mod policy;
pub mod probe;
pub mod quiet;
pub mod render;
pub mod report;
pub mod signal;
pub mod survey;
pub mod text;
pub mod utilities;
pub mod vad;
pub mod verify;

verus! {

} // verus!
