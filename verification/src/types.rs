//! The tensors of the library at the two ring sizes.
use crate::fixedpoint::FixedTensor;
use crate::kernels::RepFixedTensor;
pub use crate::placement::HostPlacement;
pub use crate::replicated::clear::{BitTensor, HostShape};
use crate::replicated::tensor::AbstractReplicatedRingTensor;
pub use crate::ring::{Ring128Tensor, Ring64Tensor};
use vstd::prelude::*;

verus! {

/// A 64-bit ring tensor in replicated shares.
pub type Replicated64Tensor = AbstractReplicatedRingTensor<Ring64Tensor>;

/// A 128-bit ring tensor in replicated shares.
pub type Replicated128Tensor = AbstractReplicatedRingTensor<Ring128Tensor>;

/// A fixed-point tensor over the 64-bit ring.
pub type Fixed64Tensor = FixedTensor<Ring64Tensor, Replicated64Tensor>;

/// A fixed-point tensor over the 128-bit ring.
pub type Fixed128Tensor = FixedTensor<Ring128Tensor, Replicated128Tensor>;

/// A fixed-point tensor over the 64-bit ring with its precision, as replicated kernels take it. It is
/// not in shares: its ring elements are a host tensor in the clear.
pub type ReplicatedFixed64Tensor = RepFixedTensor<Ring64Tensor>;

/// A fixed-point tensor over the 128-bit ring with its precision, as replicated kernels take it. It is
/// not in shares: its ring elements are a host tensor in the clear.
pub type ReplicatedFixed128Tensor = RepFixedTensor<Ring128Tensor>;

} // verus!
