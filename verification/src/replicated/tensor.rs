//! Tensors held in shares by three hosts.
use crate::error::{Error, Result};
use crate::fixedpoint::FixedTensor;
use crate::placement::{HostPlacement, Placed, Placement, ReplicatedPlacement};
use crate::ring::AbstractRingTensor;
use vstd::prelude::*;

verus! {

/// A tensor in replicated shares: each of three hosts holds two of the summands.
#[derive(Debug, Clone, PartialEq, Eq)]
pub struct AbstractReplicatedRingTensor<RingTensorT> {
    pub shares: [[RingTensorT; 2]; 3],
}

/// The placement of three pairs of shares: the three hosts, if the shares of each pair are on one.
pub open spec fn shares_placement(
    a: (HostPlacement, HostPlacement),
    b: (HostPlacement, HostPlacement),
    c: (HostPlacement, HostPlacement),
    r: Result<ReplicatedPlacement>,
) -> bool {
    let agree = a.0.owner@ == a.1.owner@ && b.0.owner@ == b.1.owner@ && c.0.owner@ == c.1.owner@;
    match r {
        Ok(plc) => {
            &&& agree
            &&& plc.owners@ == seq![a.0.owner, b.0.owner, c.0.owner]
        },
        Err(e) => !agree && e == Error::MalformedPlacement,
    }
}

/// Where the two shares of a host are, or the first reason why one of them is nowhere.
pub open spec fn pair_placement<R: Placed<Placement = HostPlacement>>(
    pair: [R; 2],
    r: Result<(HostPlacement, HostPlacement)>,
) -> bool {
    match r {
        Ok((p, q)) => pair[0].placement_is(Ok(p)) && pair[1].placement_is(Ok(q)),
        Err(e) => {
            ||| pair[0].placement_is(Err(e))
            ||| pair[1].placement_is(Err(e)) && exists|p: HostPlacement| #[trigger]
                pair[0].placement_is(Ok(p))
        },
    }
}

/// Whether both shares of a host are somewhere.
pub open spec fn is_placed<R: Placed<Placement = HostPlacement>>(pair: [R; 2]) -> bool {
    exists|a: (HostPlacement, HostPlacement)| #[trigger] pair_placement(pair, Ok(a))
}

fn place_pair<R: Placed<Placement = HostPlacement>>(pair: &[R; 2]) -> (r: Result<
    (HostPlacement, HostPlacement),
>)
    ensures
        pair_placement(*pair, r),
{
    let p = match pair[0].placement() {
        Ok(p) => p,
        Err(e) => return Err(e),
    };
    let ghost first = p;
    assert(pair[0].placement_is(Ok(first)));
    match pair[1].placement() {
        Ok(q) => Ok((p, q)),
        Err(e) => Err(e),
    }
}

impl<RingTensorT: Placed<Placement = HostPlacement>> Placed for AbstractReplicatedRingTensor<
    RingTensorT,
> {
    type Placement = ReplicatedPlacement;

    /// The three hosts, if the shares of each pair are on one; or the reason why the first share
    /// that is nowhere is so, in the order of the hosts.
    open spec fn placement_is(&self, r: Result<ReplicatedPlacement>) -> bool {
        ||| exists|a: (HostPlacement, HostPlacement), b: (HostPlacement, HostPlacement), c: (
            HostPlacement,
            HostPlacement,
        )|
            {
                &&& #[trigger] pair_placement(self.shares[0], Ok(a))
                &&& #[trigger] pair_placement(self.shares[1], Ok(b))
                &&& #[trigger] pair_placement(self.shares[2], Ok(c))
                &&& shares_placement(a, b, c, r)
            }
        ||| r matches Err(e) && exists|i: int|
            {
                &&& 0 <= i < 3
                &&& #[trigger] pair_placement(self.shares[i], Err(e))
                &&& forall|j: int| 0 <= j < i ==> is_placed(#[trigger] self.shares[j])
            }
    }

    fn placement(&self) -> (r: Result<ReplicatedPlacement>) {
        let a = match place_pair(&self.shares[0]) {
            Ok(a) => a,
            Err(e) => {
                assert(pair_placement(self.shares[0], Err(e)));
                return Err(e);
            },
        };
        let b = match place_pair(&self.shares[1]) {
            Ok(b) => b,
            Err(e) => {
                assert(pair_placement(self.shares[1], Err(e)));
                return Err(e);
            },
        };
        let c = match place_pair(&self.shares[2]) {
            Ok(c) => c,
            Err(e) => {
                assert(pair_placement(self.shares[2], Err(e)));
                return Err(e);
            },
        };
        let ghost (ga, gb, gc) = (a, b, c);
        assert(pair_placement(self.shares[0], Ok(ga)));
        assert(pair_placement(self.shares[1], Ok(gb)));
        assert(pair_placement(self.shares[2], Ok(gc)));
        if a.0.owner == a.1.owner && b.0.owner == b.1.owner && c.0.owner == c.1.owner {
            let owners = [a.0.owner, b.0.owner, c.0.owner];
            assert(owners@ =~= seq![ga.0.owner, gb.0.owner, gc.0.owner]);
            Ok(ReplicatedPlacement { owners })
        } else {
            Err(Error::MalformedPlacement)
        }
    }
}

/// A shared ring tensor is where its shares are: on the three hosts, if the two shares of each are
/// on one host, and nowhere otherwise.
pub proof fn law_shared_placement<T>(
    x: AbstractReplicatedRingTensor<AbstractRingTensor<T>>,
    r: Result<ReplicatedPlacement>,
)
    requires
        x.placement_is(r),
    ensures
        (forall|i: int|
            0 <= i < 3 ==> (#[trigger] x.shares[i])[0].plc.owner@ == x.shares[i][1].plc.owner@)
            ==> (r matches Ok(plc) && forall|i: int|
            0 <= i < 3 ==> #[trigger] plc.owners@[i] == x.shares[i][0].plc.owner),
        (exists|i: int|
            0 <= i < 3 && (#[trigger] x.shares[i])[0].plc.owner@ != x.shares[i][1].plc.owner@)
            ==> r == Err::<ReplicatedPlacement, Error>(Error::MalformedPlacement),
{
}

/// A shared fixed-point tensor is where the shared tensor inside is.
pub proof fn law_fixed_shared_placement<T>(
    x: AbstractReplicatedRingTensor<AbstractRingTensor<T>>,
    r: Result<Placement>,
)
    requires
        FixedTensor::<
            AbstractRingTensor<T>,
            AbstractReplicatedRingTensor<AbstractRingTensor<T>>,
        >::ReplicatedTensor(x).placement_is(r),
    ensures
        match r {
            Ok(plc) => exists|p: ReplicatedPlacement| #[trigger]
                x.placement_is(Ok(p)) && plc == Placement::Replicated(p),
            Err(e) => x.placement_is(Err(e)),
        },
{
}

} // verus!
