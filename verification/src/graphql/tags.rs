//! Identifier-and-value pairs as the backend stores them, and the tag
//! associations built from them.

use vstd::prelude::*;

verus! {

/// A stored row: its identifier and its value.
pub struct IdValue {
    pub id: String,
    pub value: String,
}

/// A tag tied to an extrinsic fact.
pub struct TagExtrinsic {
    pub id: String,
    pub tag: IdValue,
    pub extrinsic: IdValue,
}

/// A tag tied to an intrinsic fact.
pub struct TagIntrinsic {
    pub id: String,
    pub tag: IdValue,
    pub intrinsic: IdValue,
}

/// A tag tied to a matching pattern.
pub struct TagRegex {
    pub id: String,
    pub tag: IdValue,
    pub regex: IdValue,
}

} // verus!
