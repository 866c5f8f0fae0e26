//! Spilling of large historical tool results to artifact files, and the
//! helpers that read them back.
use vstd::prelude::*;

pub mod compaction;
pub mod interlang;
pub mod message;
pub mod preview;
pub mod reading;
pub mod spill;
pub mod text;

verus! {
} // verus!
