//! The one pure piece of the X11 observer: reading a reply that must hold
//! exactly one value.  Talking to the display server itself is collaborator
//! work and lives outside the library.

use vstd::prelude::*;

verus! {

/// The single value of a one-element reply; replies of any other size are
/// refused by the caller beforehand.
pub fn single<T: Copy>(v: &[T]) -> (r: T)
    requires
        v@.len() == 1,
    ensures
        r == v@[0],
{
    v[0]
}

} // verus!
