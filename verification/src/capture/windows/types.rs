//! Capture arguments for machines running a Windows desktop.

use vstd::prelude::*;

verus! {

/// How a Windows capture is taken.
pub struct WindowsCaptureArgs {
}

} // verus!
