//! The instruments of the app and switching between them.
use vstd::prelude::*;

verus! {

/// The instruments the navigation bar offers.
#[derive(PartialEq, Eq, Structural, Clone, Copy, Debug)]
pub enum SceneId {
    Cymatics,
    Theremin,
    Gravity,
    FluidDrum,
}

/// Instrument to build when `requested` is chosen while `active` runs:
/// `None` when it is already running, so nothing is rebuilt.
pub fn switch_target(active: SceneId, requested: SceneId) -> (r: Option<SceneId>)
    ensures
        r == (if active == requested {
            None
        } else {
            Some(requested)
        }),
{
    if active == requested {
        None
    } else {
        Some(requested)
    }
}

} // verus!
