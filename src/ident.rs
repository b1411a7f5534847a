//! Identifiers of flows and sources.
use vstd::prelude::*;

verus! {

/// Identifies a flow.
#[derive(Debug, Default, Copy, Clone, PartialEq, Eq, PartialOrd, Ord, Hash, Structural)]
pub struct FlowId(pub usize);

/// Identifies a traffic source.
#[derive(Debug, Default, Copy, Clone, PartialEq, Eq, PartialOrd, Ord, Hash, Structural)]
pub struct SourceId(pub usize);

impl FlowId {
    /// Creates an identifier.
    pub fn new(value: usize) -> (r: Self)
        ensures
            r.0 == value,
    {
        FlowId(value)
    }

    /// The identifier as a `usize`.
    pub fn into_usize(self) -> (r: usize)
        ensures
            r == self.0,
    {
        self.0
    }
}

impl SourceId {
    /// Creates an identifier.
    pub fn new(value: usize) -> (r: Self)
        ensures
            r.0 == value,
    {
        SourceId(value)
    }

    /// The identifier as a `usize`.
    pub fn into_usize(self) -> (r: usize)
        ensures
            r == self.0,
    {
        self.0
    }
}

} // verus!
