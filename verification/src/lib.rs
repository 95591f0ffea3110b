//! Verified core of a collection of audio-visual instruments: camera colour
//! tracking, note naming, membrane grid geometry, bounded buffers and the
//! instruments' option lists.
use vstd::prelude::*;

pub mod bounded;
pub mod camera;
pub mod cymatics;
pub mod fluiddrum;
pub mod gravity;
mod rng;
pub mod scenes;
pub mod theremin;

verus! {
} // verus!
