//! What a run is asked to do.
use vstd::prelude::*;

verus! {

/// The arguments of a run.
#[derive(Debug)]
pub struct Cli {
    /// Path of the video.
    pub input: String,
    /// Directory for what is made.
    pub output: String,
    /// What the video is, in the user's words.
    pub prompt: String,
    /// Word-level transcript to use instead of transcribing.
    pub transcript: Option<String>,
    /// The signal that says nothing is happening. Overrides what follows from
    /// the picture.
    pub signal: Option<String>,
    /// Ask no model.
    pub no_ai: bool,
    /// Parameter set of an earlier run, to be used again.
    pub params: Option<String>,
}

} // verus!
