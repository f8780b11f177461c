//! Where values live: on one host, or shared among three.
use crate::error::Result;
use vstd::prelude::*;

verus! {

/// A single host, named by its role.
#[derive(Debug, PartialEq, Eq)]
pub struct HostPlacement {
    pub owner: String,
}

/// Three hosts that hold a value in shares.
#[derive(Debug, PartialEq, Eq)]
pub struct ReplicatedPlacement {
    pub owners: [String; 3],
}

/// Any placement.
#[derive(Debug, PartialEq, Eq)]
pub enum Placement {
    Host(HostPlacement),
    Replicated(ReplicatedPlacement),
}

impl Clone for HostPlacement {
    fn clone(&self) -> (r: Self)
        ensures
            r == *self,
    {
        HostPlacement { owner: self.owner.clone() }
    }
}

impl From<HostPlacement> for Placement {
    fn from(plc: HostPlacement) -> (r: Placement) {
        Placement::Host(plc)
    }
}

impl vstd::std_specs::convert::FromSpecImpl<HostPlacement> for Placement {
    open spec fn obeys_from_spec() -> bool {
        true
    }

    open spec fn from_spec(plc: HostPlacement) -> Placement {
        Placement::Host(plc)
    }
}

impl From<ReplicatedPlacement> for Placement {
    fn from(plc: ReplicatedPlacement) -> (r: Placement) {
        Placement::Replicated(plc)
    }
}

impl vstd::std_specs::convert::FromSpecImpl<ReplicatedPlacement> for Placement {
    open spec fn obeys_from_spec() -> bool {
        true
    }

    open spec fn from_spec(plc: ReplicatedPlacement) -> Placement {
        Placement::Replicated(plc)
    }
}

/// Values that know where they live.
pub trait Placed {
    type Placement;

    /// Whether `r` is the placement of the value, or the reason why it has none.
    spec fn placement_is(&self, r: Result<Self::Placement>) -> bool;

    fn placement(&self) -> (r: Result<Self::Placement>)
        ensures
            self.placement_is(r),
    ;
}

} // verus!
