pub mod rule;

use vstd::prelude::*;

verus! {

/// Why the event sink refused an event.
#[derive(Debug, Clone, Copy, PartialEq, Eq, Structural)]
pub enum SinkError {
    /// The sink could not take the event.
    Rejected,
}

/// The event sink collaborator: whatever persists assembled events.
pub trait SaveToDb {
    /// Hands one value to the sink.
    fn save_to_db(&self) -> Result<(), SinkError>;
}

} // verus!
