//! The operations on tensors in the clear.
//!
//! Host tensors can stand in for shared ones: the placement then computes on the values
//! themselves, in any session.
use crate::array;
use crate::array::Array;
use crate::host_ops;
use crate::index;
use crate::kernels;
use crate::kernels::{
    Constant, FixedpointTensor, FromRing, PlacementAdd, PlacementFill, PlacementGreaterThan,
    PlacementIndexAxis, PlacementLessThan, PlacementMaximum, PlacementMul, PlacementMux,
    PlacementRingInject, PlacementShape, PlacementSub, PlacementSum, Precision, RepFixedTensor,
    RingTensor, ShapeFill, SharedTensor, TensorShape,
};
use crate::placement::{HostPlacement, ReplicatedPlacement};
use crate::replicated::softmax::MaximumOp;
use crate::ring::{AbstractRingTensor, RingElement};
use vstd::prelude::*;

verus! {

/// A tensor of bits: its shape, and its elements in row-major order.
#[derive(Debug, PartialEq, Eq)]
pub struct BitTensor {
    pub shape: Vec<usize>,
    pub data: Vec<bool>,
}

/// The shape of a tensor.
#[derive(Debug, PartialEq, Eq)]
pub struct HostShape {
    pub dims: Vec<usize>,
}

pub open spec fn bit(b: bool) -> int {
    if b {
        1
    } else {
        0
    }
}

impl TensorShape for HostShape {
    open spec fn dims(&self) -> Seq<usize> {
        self.dims@
    }
}

impl SharedTensor for BitTensor {
    open spec fn elements(self) -> Array {
        Array { shape: self.shape@, elems: self.data@.map_values(|b: bool| bit(b)) }
    }

    open spec fn modulus() -> int {
        2
    }

    open spec fn precision(self) -> Option<Precision> {
        None
    }

    proof fn lemma_elements(x: Self) {
    }
}

impl<T: RingElement> SharedTensor for AbstractRingTensor<T> {
    open spec fn elements(self) -> Array {
        self@
    }

    open spec fn modulus() -> int {
        T::modulus()
    }

    open spec fn precision(self) -> Option<Precision> {
        None
    }

    proof fn lemma_elements(x: Self) {
        T::lemma_ring(x.data@[0]);
        assert forall|k: int| 0 <= k < x.elements().elems.len() implies 0
            <= #[trigger] x.elements().elems[k] < T::modulus() by {
            T::lemma_ring(x.data@[k]);
        }
    }
}

fn copy_elements<T: Copy>(data: &Vec<T>) -> (r: Vec<T>)
    ensures
        r@ == data@,
{
    let mut r: Vec<T> = Vec::new();
    let mut i: usize = 0;
    while i < data.len()
        invariant
            i <= data@.len(),
            r@ == data@.take(i as int),
        decreases data@.len() - i,
    {
        r.push(data[i]);
        i = i + 1;
        assert(data@.take(i as int) =~= data@.take(i - 1).push(data@[i - 1]));
    }
    assert(data@.take(i as int) =~= data@);
    r
}

impl<T: RingElement> Clone for AbstractRingTensor<T> {
    fn clone(&self) -> (r: Self)
        ensures
            r.shape@ == self.shape@,
            r.data@ == self.data@,
            r.plc == self.plc,
    {
        AbstractRingTensor {
            shape: copy_elements(&self.shape),
            data: copy_elements(&self.data),
            plc: self.plc.clone(),
        }
    }
}

impl<T: RingElement> RingTensor for AbstractRingTensor<T> {
    proof fn lemma_cloned(x: Self, y: Self) {
    }
}

impl<R: SharedTensor> SharedTensor for RepFixedTensor<R> {
    open spec fn elements(self) -> Array {
        self.tensor.elements()
    }

    open spec fn modulus() -> int {
        R::modulus()
    }

    open spec fn precision(self) -> Option<Precision> {
        Some(
            Precision {
                integral: self.integral_precision,
                fractional: self.fractional_precision,
            },
        )
    }

    proof fn lemma_elements(x: Self) {
        R::lemma_elements(x.tensor);
    }
}

impl<R: SharedTensor> FixedpointTensor for RepFixedTensor<R> {
    fn integral_precision(&self) -> (r: u32) {
        self.integral_precision
    }

    fn fractional_precision(&self) -> (r: u32) {
        self.fractional_precision
    }
}

impl<R: SharedTensor> FromRing<R> for RepFixedTensor<R> {
    fn from_ring(x: RepFixedTensor<R>) -> (r: Self) {
        x
    }
}

impl<S, T: RingElement> PlacementLessThan<
    S,
    AbstractRingTensor<T>,
    AbstractRingTensor<T>,
    BitTensor,
> for ReplicatedPlacement {
    fn less(&self, _sess: &S, x: &AbstractRingTensor<T>, y: &AbstractRingTensor<T>) -> (b:
        BitTensor) {
        let (shape, left, right) = index::zip_positions(&x.shape, &y.shape);
        let ghost want = x@.zip(y@, kernels::less_than(T::modulus()));
        let mut data: Vec<bool> = Vec::new();
        let mut k: usize = 0;
        while k < left.len()
            invariant
                k <= left@.len(),
                x@.wf(),
                y@.wf(),
                shape@ == want.shape,
                index::reads_operand(left@, x.shape@, shape@),
                index::reads_operand(right@, y.shape@, shape@),
                want == x@.zip(y@, kernels::less_than(T::modulus())),
                data@.len() == k,
                forall|j: int| 0 <= j < k ==> bit(#[trigger] data@[j]) == want.elems[j],
            decreases left@.len() - k,
        {
            data.push(x.data[left[k]].signed_less(y.data[right[k]]));
            k = k + 1;
        }
        let r = BitTensor { shape, data };
        assert(r.elements() =~= want);
        r
    }
}

impl<S, T: RingElement> PlacementAdd<
    S,
    AbstractRingTensor<T>,
    AbstractRingTensor<T>,
    AbstractRingTensor<T>,
> for ReplicatedPlacement {
    fn add(&self, _sess: &S, x: &AbstractRingTensor<T>, y: &AbstractRingTensor<T>) -> (z:
        AbstractRingTensor<T>) {
        let (shape, left, right) = index::zip_positions(&x.shape, &y.shape);
        let ghost want = x@.zip(y@, host_ops::add_mod(T::modulus()));
        let mut data: Vec<T> = Vec::new();
        let mut k: usize = 0;
        while k < left.len()
            invariant
                k <= left@.len(),
                x@.wf(),
                y@.wf(),
                shape@ == want.shape,
                index::reads_operand(left@, x.shape@, shape@),
                index::reads_operand(right@, y.shape@, shape@),
                want == x@.zip(y@, host_ops::add_mod(T::modulus())),
                data@.len() == k,
                forall|j: int| 0 <= j < k ==> (#[trigger] data@[j]).val() == want.elems[j],
            decreases left@.len() - k,
        {
            data.push(x.data[left[k]].ring_add(y.data[right[k]]));
            k = k + 1;
        }
        let r = AbstractRingTensor { shape, data, plc: x.plc.clone() };
        assert(r.elements() =~= want);
        r
    }
}

impl<S, T: RingElement> PlacementSub<
    S,
    AbstractRingTensor<T>,
    AbstractRingTensor<T>,
    AbstractRingTensor<T>,
> for ReplicatedPlacement {
    fn sub(&self, _sess: &S, x: &AbstractRingTensor<T>, y: &AbstractRingTensor<T>) -> (z:
        AbstractRingTensor<T>) {
        let (shape, left, right) = index::zip_positions(&x.shape, &y.shape);
        let ghost want = x@.zip(y@, host_ops::sub_mod(T::modulus()));
        let mut data: Vec<T> = Vec::new();
        let mut k: usize = 0;
        while k < left.len()
            invariant
                k <= left@.len(),
                x@.wf(),
                y@.wf(),
                shape@ == want.shape,
                index::reads_operand(left@, x.shape@, shape@),
                index::reads_operand(right@, y.shape@, shape@),
                want == x@.zip(y@, host_ops::sub_mod(T::modulus())),
                data@.len() == k,
                forall|j: int| 0 <= j < k ==> (#[trigger] data@[j]).val() == want.elems[j],
            decreases left@.len() - k,
        {
            data.push(x.data[left[k]].ring_sub(y.data[right[k]]));
            k = k + 1;
        }
        let r = AbstractRingTensor { shape, data, plc: x.plc.clone() };
        assert(r.elements() =~= want);
        r
    }
}

impl<S, T: RingElement> PlacementMul<
    S,
    AbstractRingTensor<T>,
    AbstractRingTensor<T>,
    AbstractRingTensor<T>,
> for ReplicatedPlacement {
    fn mul(&self, _sess: &S, x: &AbstractRingTensor<T>, y: &AbstractRingTensor<T>) -> (z:
        AbstractRingTensor<T>) {
        x.clone().mul(y.clone())
    }
}

impl<S, T: RingElement> PlacementRingInject<
    S,
    BitTensor,
    AbstractRingTensor<T>,
> for ReplicatedPlacement {
    fn ring_inject(&self, _sess: &S, bit_idx: usize, b: &BitTensor) -> (r: AbstractRingTensor<T>) {
        let zero = T::from_constant(0);
        let mut power = T::from_constant(1);
        proof {
            T::lemma_ring(zero);
            vstd::arithmetic::div_mod::lemma_small_mod(0, T::modulus() as nat);
            vstd::arithmetic::div_mod::lemma_small_mod(1, T::modulus() as nat);
            vstd::arithmetic::power2::lemma2_to64();
        }
        let mut i: usize = 0;
        while i < bit_idx
            invariant
                i <= bit_idx,
                vstd::arithmetic::power2::pow2(bit_idx as nat) < T::modulus(),
                power.val() == vstd::arithmetic::power2::pow2(i as nat),
            decreases bit_idx - i,
        {
            proof {
                vstd::arithmetic::power2::lemma_pow2_unfold((i + 1) as nat);
                if i + 1 < bit_idx {
                    vstd::arithmetic::power2::lemma_pow2_strictly_increases(
                        (i + 1) as nat,
                        bit_idx as nat,
                    );
                }
                vstd::arithmetic::div_mod::lemma_small_mod(
                    vstd::arithmetic::power2::pow2((i + 1) as nat),
                    T::modulus() as nat,
                );
            }
            power = power.ring_add(power);
            i = i + 1;
        }
        let ghost want = b.elements().map(kernels::shift(bit_idx as nat, T::modulus()));
        let mut data: Vec<T> = Vec::new();
        let mut k: usize = 0;
        proof {
            vstd::arithmetic::div_mod::lemma_small_mod(
                vstd::arithmetic::power2::pow2(bit_idx as nat),
                T::modulus() as nat,
            );
        }
        while k < b.data.len()
            invariant
                k <= b.data@.len(),
                want == b.elements().map(kernels::shift(bit_idx as nat, T::modulus())),
                zero.val() == 0,
                0int % T::modulus() == 0,
                power.val() == vstd::arithmetic::power2::pow2(bit_idx as nat),
                power.val() % T::modulus() == power.val(),
                data@.len() == k,
                forall|j: int| 0 <= j < k ==> (#[trigger] data@[j]).val() == want.elems[j],
            decreases b.data@.len() - k,
        {
            proof {
                let e = b.elements().elems[k as int];
                let p = power.val();
                assert(0 * p == 0 && 1 * p == p);
                assert(e == bit(b.data@[k as int]));
            }
            data.push(if b.data[k] {
                power
            } else {
                zero
            });
            k = k + 1;
        }
        let r = AbstractRingTensor {
            shape: copy_elements(&b.shape),
            data,
            plc: HostPlacement { owner: String::new() },
        };
        assert(r.elements() =~= want);
        r
    }
}

impl<S, T: RingElement> PlacementFill<S, HostShape, AbstractRingTensor<T>> for ReplicatedPlacement {
    fn fill(&self, _sess: &S, value: Constant, shape: &HostShape) -> (r: AbstractRingTensor<T>) {
        let v = T::from_constant(value.value());
        let size = array::shape_size(&shape.dims);
        let mut data: Vec<T> = Vec::new();
        let mut k: usize = 0;
        while k < size
            invariant
                k <= size,
                data@.len() == k,
                forall|j: int| 0 <= j < k ==> #[trigger] data@[j] == v,
            decreases size - k,
        {
            data.push(v);
            k = k + 1;
        }
        let r = AbstractRingTensor {
            shape: copy_elements(&shape.dims),
            data,
            plc: HostPlacement { owner: String::new() },
        };
        assert(r.elements() =~= Array::fill(shape.dims@, value.val() % T::modulus()));
        r
    }
}

impl<S, T: RingElement> ShapeFill<S, AbstractRingTensor<T>> for ReplicatedPlacement {
    type Result = AbstractRingTensor<T>;

    fn shape_fill(&self, sess: &S, value: Constant, x: &AbstractRingTensor<T>) -> (r:
        AbstractRingTensor<T>) {
        let shape = HostShape { dims: copy_elements(&x.shape) };
        self.fill(sess, value, &shape)
    }
}

/// A fixed-point tensor in the clear.
pub type ClearFixedTensor<T> = RepFixedTensor<AbstractRingTensor<T>>;

impl<S, T: RingElement> PlacementShape<S, ClearFixedTensor<T>, HostShape> for ReplicatedPlacement {
    fn shape(&self, _sess: &S, x: &ClearFixedTensor<T>) -> (r: HostShape) {
        HostShape { dims: copy_elements(&x.tensor.shape) }
    }
}

impl<S, T: RingElement> PlacementSub<
    S,
    ClearFixedTensor<T>,
    ClearFixedTensor<T>,
    ClearFixedTensor<T>,
> for ReplicatedPlacement {
    fn sub(&self, sess: &S, x: &ClearFixedTensor<T>, y: &ClearFixedTensor<T>) -> (z:
        ClearFixedTensor<T>) {
        let tensor: AbstractRingTensor<T> = self.sub(sess, &x.tensor, &y.tensor);
        RepFixedTensor {
            tensor,
            integral_precision: if x.integral_precision >= y.integral_precision {
                x.integral_precision
            } else {
                y.integral_precision
            },
            fractional_precision: x.fractional_precision,
        }
    }
}

impl<S, T: RingElement> PlacementGreaterThan<
    S,
    ClearFixedTensor<T>,
    ClearFixedTensor<T>,
    BitTensor,
> for ReplicatedPlacement {
    fn greater_than(&self, sess: &S, x: &ClearFixedTensor<T>, y: &ClearFixedTensor<T>) -> (b:
        BitTensor) {
        proof {
            array::lemma_broadcast_same(x.tensor.shape@);
        }
        self.less(sess, &y.tensor, &x.tensor)
    }
}

impl<S, T: RingElement> PlacementIndexAxis<
    S,
    ClearFixedTensor<T>,
    ClearFixedTensor<T>,
> for ReplicatedPlacement {
    fn index_axis(&self, _sess: &S, axis: usize, index: usize, x: &ClearFixedTensor<T>) -> (z:
        ClearFixedTensor<T>) {
        let (shape, positions) = index::axis_positions(&x.tensor.shape, axis, index);
        let ghost want = x.elements().index_axis(axis as int, index as int);
        let mut data: Vec<T> = Vec::new();
        let mut k: usize = 0;
        while k < positions.len()
            invariant
                k <= positions@.len(),
                x.tensor@.wf(),
                want == x.tensor@.index_axis(axis as int, index as int),
                shape@ == want.shape,
                positions@.len() == array::size(shape@),
                forall|j: int|
                    0 <= j < positions@.len() ==> #[trigger] positions@[j] == array::offset(
                        x.tensor.shape@,
                        array::unravel(shape@, j).insert(axis as int, index as int),
                    ) && positions@[j] < array::size(x.tensor.shape@),
                data@.len() == k,
                forall|j: int| 0 <= j < k ==> (#[trigger] data@[j]).val() == want.elems[j],
            decreases positions@.len() - k,
        {
            data.push(x.tensor.data[positions[k]]);
            k = k + 1;
        }
        let tensor = AbstractRingTensor { shape, data, plc: x.tensor.plc.clone() };
        assert(tensor.elements() =~= want);
        RepFixedTensor {
            tensor,
            integral_precision: x.integral_precision,
            fractional_precision: x.fractional_precision,
        }
    }
}

impl<S, T: RingElement> PlacementMaximum<
    S,
    ClearFixedTensor<T>,
    ClearFixedTensor<T>,
> for ReplicatedPlacement {
    fn maximum(&self, sess: &S, xs: &Vec<ClearFixedTensor<T>>) -> (z: ClearFixedTensor<T>) {
        let mut tensors: Vec<AbstractRingTensor<T>> = Vec::new();
        let mut i: usize = 0;
        while i < xs.len()
            invariant
                i <= xs@.len(),
                tensors@.len() == i,
                forall|j: int|
                    0 <= j < i ==> (#[trigger] tensors@[j]).elements() == xs@[j].elements(),
            decreases xs@.len() - i,
        {
            tensors.push(xs[i].tensor.clone());
            i = i + 1;
        }
        proof {
            assert(kernels::all_elements(tensors@) =~= kernels::all_elements(xs@));
            assert forall|j: int| 0 <= j < tensors@.len() implies (#[trigger] tensors@[j]).elements().wf() by {
                assert(xs@[j].elements().wf());
            }
        }
        let largest = MaximumOp::kernel::<S, AbstractRingTensor<T>, BitTensor, AbstractRingTensor<T>>(
            sess,
            self,
            tensors.as_slice(),
        );
        let tensor = match largest {
            Ok(tensor) => tensor,
            // Not reached, as there is a tensor.
            Err(_) => xs[0].tensor.clone(),
        };
        RepFixedTensor {
            tensor,
            integral_precision: xs[0].integral_precision,
            fractional_precision: xs[0].fractional_precision,
        }
    }
}

impl<S, T: RingElement> PlacementMux<
    S,
    AbstractRingTensor<T>,
    ClearFixedTensor<T>,
    ClearFixedTensor<T>,
    ClearFixedTensor<T>,
> for ReplicatedPlacement {
    fn mux(
        &self,
        _sess: &S,
        s: &AbstractRingTensor<T>,
        x: &ClearFixedTensor<T>,
        y: &ClearFixedTensor<T>,
    ) -> (z: ClearFixedTensor<T>) {
        let zero = T::from_constant(0);
        let ghost want = kernels::select(s@, x.elements(), y.elements());
        let mut data: Vec<T> = Vec::new();
        let mut k: usize = 0;
        proof {
            T::lemma_ring(zero);
            vstd::arithmetic::div_mod::lemma_small_mod(0, T::modulus() as nat);
            vstd::arithmetic::div_mod::lemma_small_mod(1, T::modulus() as nat);
        }
        while k < s.data.len()
            invariant
                k <= s.data@.len(),
                s@.elems.len() == x.tensor.data@.len(),
                s@.elems.len() == y.tensor.data@.len(),
                zero.val() == 0,
                T::modulus() >= 2,
                want == kernels::select(s@, x.tensor@, y.tensor@),
                forall|j: int|
                    0 <= j < s@.elems.len() ==> (#[trigger] s@.elems[j]) == 0 || s@.elems[j] == 1,
                data@.len() == k,
                forall|j: int| 0 <= j < k ==> (#[trigger] data@[j]).val() == want.elems[j],
            decreases s.data@.len() - k,
        {
            proof {
                assert(s@.elems[k as int] == s.data@[k as int].val());
            }
            data.push(if zero.signed_less(s.data[k]) || s.data[k].signed_less(zero) {
                x.tensor.data[k]
            } else {
                y.tensor.data[k]
            });
            k = k + 1;
        }
        let tensor = AbstractRingTensor {
            shape: copy_elements(&s.shape),
            data,
            plc: x.tensor.plc.clone(),
        };
        assert(tensor.elements() =~= want);
        RepFixedTensor {
            tensor,
            integral_precision: if x.integral_precision >= y.integral_precision {
                x.integral_precision
            } else {
                y.integral_precision
            },
            fractional_precision: x.fractional_precision,
        }
    }
}

impl<S, T: RingElement> PlacementSum<
    S,
    ClearFixedTensor<T>,
    ClearFixedTensor<T>,
> for ReplicatedPlacement {
    fn sum(&self, _sess: &S, axis: Option<u32>, x: &ClearFixedTensor<T>) -> (z: ClearFixedTensor<
        T,
    >) {
        let axis = match axis {
            Some(a) => Some(a as usize),
            None => None,
        };
        RepFixedTensor {
            tensor: x.tensor.clone().sum(axis),
            integral_precision: x.integral_precision,
            fractional_precision: x.fractional_precision,
        }
    }
}

} // verus!
