//! The verified core of a desktop dictation tool.
use vstd::prelude::*;

pub mod audio_feedback;
pub mod backup;
pub mod cli;
pub mod clipboard;
pub mod demux;
pub mod device;
pub mod input;
pub mod jumper;
pub mod mixer;
pub mod models;
pub mod ogg;
pub mod pipeline;
pub mod prompt;
pub mod recording;
pub mod settings;
pub mod text;
pub mod translator;
pub mod vad;

verus! {

} // verus!
