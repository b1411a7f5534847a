//! Flow completion time records.
use vstd::prelude::*;

use crate::ident::FlowId;
use crate::units::{Bytes, Nanosecs};

verus! {

/// A flow completion time record.
#[derive(Debug, Clone, Copy, PartialEq, Eq, Structural)]
pub struct Record {
    /// The flow ID.
    pub id: FlowId,
    /// The flow size.
    pub size: Bytes,
    /// The start time of the flow.
    pub start: Nanosecs,
    /// The flow completion time: from the start until all bytes reached the destination.
    pub fct: Nanosecs,
    /// The ideal flow completion time on an otherwise empty network.
    pub ideal: Nanosecs,
}

impl Record {
    /// The delay the flow experienced beyond its ideal completion time, or zero when it
    /// completed no later than that (integer rounding allows it).
    pub fn delay(&self) -> (r: Nanosecs)
        ensures
            r.0 == if self.fct.0 > self.ideal.0 { self.fct.0 - self.ideal.0 } else { 0 },
    {
        if self.fct.0 > self.ideal.0 {
            Nanosecs(self.fct.0 - self.ideal.0)
        } else {
            Nanosecs(0)
        }
    }
}

} // verus!
