pub mod linux;
pub mod macos;
pub mod pc_common;
pub mod windows;

use vstd::prelude::*;
use crate::scripting::interpreter::Capture;

verus! {

/// The capture collaborator: each platform brings its own way of observing
/// the machine's windows and input idleness.
pub trait Capturer {
    /// One observation, where the platform can give one.
    fn capture(&mut self) -> Option<Capture>;
}

} // verus!
