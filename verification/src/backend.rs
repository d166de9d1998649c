//! Items a protocol backend shares with its users: object ids and errors.

use vstd::prelude::*;

verus! {

/// An identifier of a protocol object, as a backend hands it out.
pub trait ObjectId: Clone + Send + core::fmt::Debug {
    /// Whether this id stands for no object.
    fn is_null(&self) -> bool;
}

/// An error type representing the failure to load libwayland
#[derive(Debug, Clone, Copy, PartialEq, Eq)]
pub struct NoWaylandLib;

impl NoWaylandLib {
    /// What the error says.
    pub fn message(&self) -> (r: String)
        ensures
            r@ == "could not load libwayland-client.so"@,
    {
        "could not load libwayland-client.so".to_owned()
    }
}

/// An error generated when trying to act on an invalid `ObjectId`.
#[derive(Debug, Clone, Copy, PartialEq, Eq)]
pub struct InvalidId;

impl InvalidId {
    /// What the error says.
    pub fn message(&self) -> (r: String)
        ensures
            r@ == "Invalid ObjectId"@,
    {
        "Invalid ObjectId".to_owned()
    }
}

} // verus!
