//! The record type and the selector of its attributes.

use vstd::prelude::*;

verus! {

/// A record of three independent unsigned attributes.
#[derive(Debug, Clone, Copy, PartialEq, Eq, Structural)]
pub struct Cluster {
    pub delta0: u32,
    pub delta1: u32,
    pub delta2: u32,
}

/// Names the attribute of a [`Cluster`] that an operation compares on.
#[derive(Debug, Clone, Copy, PartialEq, Eq, Structural)]
pub enum Delta {
    Delta0,
    Delta1,
    Delta2,
}

impl Cluster {
    /// The value of the attribute that `delta` names.
    pub open spec fn key(self, delta: Delta) -> int {
        match delta {
            Delta::Delta0 => self.delta0 as int,
            Delta::Delta1 => self.delta1 as int,
            Delta::Delta2 => self.delta2 as int,
        }
    }

    /// Reads the attribute that `delta` names.
    pub fn get_cluster_delta(&self, delta: &Delta) -> (value: u32)
        ensures
            value == self.key(*delta),
    {
        match delta {
            Delta::Delta0 => self.delta0,
            Delta::Delta1 => self.delta1,
            Delta::Delta2 => self.delta2,
        }
    }
}

} // verus!
