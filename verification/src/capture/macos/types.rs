//! Capture arguments for machines running a macOS desktop.

use vstd::prelude::*;

verus! {

/// How a macOS capture is taken.
pub struct MacOSCaptureArgs {
}

} // verus!
