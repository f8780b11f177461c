//! Fixed-point encoding of real tensors in rings, and the mean of encoded tensors.
use crate::array;
use crate::array::Array;
use crate::error::Result;
use crate::host_ops;
use crate::placement::{HostPlacement, Placed, Placement};
use crate::ring;
use crate::ring::{AbstractRingTensor, Ring128Tensor, Ring64Tensor, RingElement};
use vstd::prelude::*;

verus! {

/// A fixed-point tensor: on a host in the clear, or shared among three hosts.
#[derive(Debug, Clone, PartialEq)]
pub enum FixedTensor<RingTensorT, ReplicatedTensorT> {
    RingTensor(RingTensorT),
    ReplicatedTensor(ReplicatedTensorT),
}

/// Whether `general` is what a particular placement, or the reason why there is none, amounts to.
pub open spec fn generalizes<P: Into<Placement>>(r: Result<P>, general: Result<Placement>) -> bool {
    match r {
        Ok(plc) => general matches Ok(g) && call_ensures(<P as Into<Placement>>::into, (plc,), g),
        Err(e) => general == Err::<Placement, _>(e),
    }
}

impl<RingTensorT, ReplicatedTensorT> Placed for FixedTensor<RingTensorT, ReplicatedTensorT> where
    RingTensorT: Placed,
    RingTensorT::Placement: Into<Placement>,
    ReplicatedTensorT: Placed,
    ReplicatedTensorT::Placement: Into<Placement>,
 {
    type Placement = Placement;

    /// Where the tensor lives: where the tensor inside does.
    open spec fn placement_is(&self, r: Result<Placement>) -> bool {
        match *self {
            FixedTensor::RingTensor(x) => exists|p: Result<RingTensorT::Placement>| #[trigger]
                x.placement_is(p) && generalizes(p, r),
            FixedTensor::ReplicatedTensor(x) => exists|p: Result<ReplicatedTensorT::Placement>|
                #[trigger] x.placement_is(p) && generalizes(p, r),
        }
    }

    fn placement(&self) -> (r: Result<Placement>) {
        match self {
            FixedTensor::RingTensor(x) => {
                let p = x.placement();
                let ghost found = p;
                assert(x.placement_is(found));
                match p {
                    Ok(plc) => Ok(plc.into()),
                    Err(e) => Err(e),
                }
            },
            FixedTensor::ReplicatedTensor(x) => {
                let p = x.placement();
                let ghost found = p;
                assert(x.placement_is(found));
                match p {
                    Ok(plc) => Ok(plc.into()),
                    Err(e) => Err(e),
                }
            },
        }
    }
}

/// Numbers that stand for reals, such as floating-point numbers or fractions.
pub trait Real: Sized {
    /// What this kind of number has for `1 / n`.
    spec fn reciprocal_of(n: usize) -> Self;

    fn reciprocal(n: usize) -> (r: Self)
        ensures
            r == Self::reciprocal_of(n),
    ;
}

/// Numbers that can be brought to a fixed-point scale `S` as signed words `I`, and back.
pub trait Quantize<S, I>: Real {
    /// The integer part of the number times the scale, as this kind of number has it.
    spec fn quantized(self, scale: S) -> I;

    /// Whether the number is what this kind of number has for `v / scale`.
    spec fn dequantized(self, scale: S, v: I) -> bool;

    fn quantize(&self, scale: S) -> (v: I)
        ensures
            v == self.quantized(scale),
    ;

    fn dequantize(v: I, scale: S) -> (r: Self)
        ensures
            r.dequantized(scale, v),
    ;
}

/// A tensor of real numbers: its shape, and its elements in row-major order.
#[derive(Debug, PartialEq)]
pub struct RealTensor<F> {
    pub shape: Vec<usize>,
    pub data: Vec<F>,
}

impl<F> RealTensor<F> {
    pub open spec fn wf(self) -> bool {
        &&& array::valid_shape(self.shape@)
        &&& self.data@.len() == array::size(self.shape@)
    }
}

/// Types that values of type `T` can be encoded in at a scale, and decoded from.
pub trait Convert<T>: Sized {
    type Scale;

    /// Whether a value can be encoded.
    spec fn encodable(x: T) -> bool;

    /// Whether an encoding can be decoded.
    spec fn decodable(x: Self) -> bool;

    /// Whether `r` encodes `x` at the scale.
    spec fn encodes(x: T, scaling_factor: Self::Scale, r: Self) -> bool;

    /// Whether `r` is what `x` decodes to at the scale.
    spec fn decodes(x: Self, scaling_factor: Self::Scale, r: T) -> bool;

    fn encode(x: &T, scaling_factor: Self::Scale) -> (r: Self)
        requires
            Self::encodable(*x),
        ensures
            Self::encodes(*x, scaling_factor, r),
    ;

    fn decode(x: &Self, scaling_factor: Self::Scale) -> (r: T)
        requires
            Self::decodable(*x),
        ensures
            Self::decodes(*x, scaling_factor, r),
    ;
}

/// Whether the ring element is the two's complement of the number's fixed-point value.
pub open spec fn encodes_element<T: RingElement, F: Quantize<T, T::Signed>>(
    x: F,
    scaling_factor: T,
    e: T,
) -> bool {
    e.val() == T::signed_val(x.quantized(scaling_factor)) % T::modulus()
}

/// Whether the number is the value of the ring element, read as two's complement, over the scale.
pub open spec fn decodes_element<T: RingElement, F: Quantize<T, T::Signed>>(
    e: T,
    scaling_factor: T,
    x: F,
) -> bool {
    exists|v: T::Signed|
        #[trigger] x.dequantized(scaling_factor, v) && T::signed_val(v) == ring::centered(
            e.val(),
            T::modulus(),
        )
}

impl<T: RingElement, F: Quantize<T, T::Signed>> Convert<RealTensor<F>> for AbstractRingTensor<T> {
    type Scale = T;

    open spec fn encodable(x: RealTensor<F>) -> bool {
        x.wf()
    }

    open spec fn decodable(x: Self) -> bool {
        x@.wf()
    }

    open spec fn encodes(x: RealTensor<F>, scaling_factor: T, r: Self) -> bool {
        &&& r@.wf()
        &&& r.shape@ == x.shape@
        &&& r.plc.owner@ == Seq::<char>::empty()
        &&& forall|k: int|
            0 <= k < x.data@.len() ==> #[trigger] encodes_element(
                x.data@[k],
                scaling_factor,
                r.data@[k],
            )
    }

    open spec fn decodes(x: Self, scaling_factor: T, r: RealTensor<F>) -> bool {
        &&& r.wf()
        &&& r.shape@ == x.shape@
        &&& forall|k: int|
            0 <= k < x.data@.len() ==> #[trigger] decodes_element(
                x.data@[k],
                scaling_factor,
                r.data@[k],
            )
    }

    fn encode(x: &RealTensor<F>, scaling_factor: T) -> (r: Self) {
        let mut data: Vec<T> = Vec::new();
        let mut i: usize = 0;
        while i < x.data.len()
            invariant
                i <= x.data@.len(),
                data@.len() == i,
                forall|k: int|
                    0 <= k < i ==> #[trigger] encodes_element(x.data@[k], scaling_factor, data@[k]),
            decreases x.data@.len() - i,
        {
            let v = x.data[i].quantize(scaling_factor);
            let e = T::from_signed(v);
            assert(encodes_element(x.data@[i as int], scaling_factor, e));
            data.push(e);
            i = i + 1;
        }
        let shape = x.shape.clone();
        assert(shape@ =~= x.shape@);
        AbstractRingTensor { shape, data, plc: HostPlacement { owner: String::new() } }
    }

    fn decode(x: &Self, scaling_factor: T) -> (r: RealTensor<F>) {
        let mut data: Vec<F> = Vec::new();
        let mut i: usize = 0;
        while i < x.data.len()
            invariant
                i <= x.data@.len(),
                data@.len() == i,
                forall|k: int|
                    0 <= k < i ==> #[trigger] decodes_element(x.data@[k], scaling_factor, data@[k]),
            decreases x.data@.len() - i,
        {
            let v = x.data[i].to_signed();
            let y = F::dequantize(v, scaling_factor);
            assert(decodes_element(x.data@[i as int], scaling_factor, y));
            data.push(y);
            i = i + 1;
        }
        let shape = x.shape.clone();
        assert(shape@ =~= x.shape@);
        RealTensor { shape, data }
    }
}

/// How many elements each mean along an axis, or the mean of all elements, is taken over.
pub open spec fn mean_count(shape: Seq<usize>, axis: Option<usize>) -> nat {
    match axis {
        Some(a) => shape[a as int] as nat,
        None => array::size(shape),
    }
}

/// The weight of each element in a mean: one over how many elements it is taken over.
pub open spec fn mean_weight<F: Real>(shape: Seq<usize>, axis: Option<usize>) -> F {
    F::reciprocal_of(mean_count(shape, axis) as usize)
}

/// Whether `r` holds the weight of each element in a mean, and nothing else.
pub open spec fn is_mean_weight<F: Real>(
    shape: Seq<usize>,
    axis: Option<usize>,
    r: RealTensor<F>,
) -> bool {
    &&& r.wf()
    &&& r.shape@ == Seq::<usize>::empty()
    &&& r.data@ == seq![mean_weight::<F>(shape, axis)]
}

/// The sums along an axis, or of all elements, times a weight, modulo `m`.
pub open spec fn weighted_sum(x: Array, axis: Option<usize>, weight: int, m: int) -> Array {
    x.sum(axis).map(|s: int| (s * weight) % m)
}

/// The mean of `x` at the scale: the sums times the fixed-point value of the reciprocal of how many
/// elements there are in each.
pub open spec fn mean<T: RingElement, F: Quantize<T, T::Signed>>(
    x: Array,
    axis: Option<usize>,
    scaling_factor: T,
) -> Array {
    weighted_sum(
        x,
        axis,
        T::signed_val(mean_weight::<F>(x.shape, axis).quantized(scaling_factor)),
        T::modulus(),
    )
}

proof fn lemma_weight_mod(x: Array, axis: Option<usize>, weight: int, m: int)
    requires
        m > 0,
    ensures
        weighted_sum(x, axis, weight % m, m) == weighted_sum(x, axis, weight, m),
{
    let a = weighted_sum(x, axis, weight % m, m);
    let b = weighted_sum(x, axis, weight, m);
    assert forall|k: int| 0 <= k < a.elems.len() implies a.elems[k] == b.elems[k] by {
        vstd::arithmetic::div_mod::lemma_mul_mod_noop_right(x.sum(axis).elems[k], weight, m);
    }
    assert(a =~= b);
}

impl<T: RingElement> AbstractRingTensor<T> {
    /// The mean along an axis, or of all elements where no axis is given. The result carries the
    /// scale of `x` times the scaling factor.
    pub fn ring_mean<F: Quantize<T, T::Signed>>(
        x: Self,
        axis: Option<usize>,
        scaling_factor: T,
    ) -> (r: Self)
        requires
            x@.wf(),
            ring::can_sum(x@.shape, axis),
        ensures
            r@ == mean::<T, F>(x@, axis, scaling_factor),
            r@.wf(),
            r.plc == x.plc,
    {
        let mean_weight = Self::compute_mean_weight::<F>(&x, &axis);
        let encoded_weight: Self = Self::encode(&mean_weight, scaling_factor);
        proof {
            let w = encoded_weight.data@[0];
            assert(encodes_element(mean_weight.data@[0], scaling_factor, w));
            T::lemma_ring(w);
            let v = mean_weight.data@[0].quantized(scaling_factor);
            lemma_weight_mod(x@, axis, T::signed_val(v), T::modulus());
        }
        Self::weighted_mean(x, axis, encoded_weight)
    }

    /// The sums along an axis, or of all elements where no axis is given, times a weight.
    pub fn weighted_mean(x: Self, axis: Option<usize>, encoded_weight: Self) -> (r: Self)
        requires
            x@.wf(),
            ring::can_sum(x@.shape, axis),
            encoded_weight@.wf(),
            encoded_weight@.shape == Seq::<usize>::empty(),
        ensures
            r@ == weighted_sum(x@, axis, encoded_weight@.elems[0], T::modulus()),
            r@.wf(),
            r.plc == x.plc,
    {
        let ghost x0 = x@;
        let ghost m = T::modulus();
        let ghost w = encoded_weight@.elems[0];
        let operand_sum = x.sum(axis);
        let ghost summed = operand_sum@;
        proof {
            assert(encoded_weight@ =~= Array::scalar(w));
            array::lemma_zip_scalar(summed, w, host_ops::mul_mod(m));
            assert(array::broadcast_shape(summed.shape, encoded_weight@.shape) =~= summed.shape);
            T::lemma_ring(encoded_weight.data@[0]);
        }
        let r = operand_sum.mul(encoded_weight);
        proof {
            let want = weighted_sum(x0, axis, w, m);
            assert forall|k: int| 0 <= k < summed.elems.len() implies r@.elems[k]
                == want.elems[k] by {
                let s = x0.sum(axis).elems[k];
                vstd::arithmetic::div_mod::lemma_mul_mod_noop_left(s, w, m);
            }
            assert(r@ =~= want);
        }
        r
    }

    /// The weight of each element in a mean: one over how many elements there are along the axis,
    /// or in all where no axis is given.
    pub fn compute_mean_weight<F: Real>(x: &Self, axis: &Option<usize>) -> (r: RealTensor<F>)
        requires
            x@.wf(),
            *axis matches Some(a) ==> a < x@.shape.len(),
        ensures
            is_mean_weight(x@.shape, *axis, r),
    {
        let count = match axis {
            Some(ax) => x.shape[*ax],
            None => array::shape_size(&x.shape),
        };
        let mut data: Vec<F> = Vec::new();
        data.push(F::reciprocal(count));
        let shape: Vec<usize> = Vec::new();
        RealTensor { shape, data }
    }
}

impl HostPlacement {
    /// Moves a tensor to this host.
    pub fn place<S, T: RingElement>(&self, _sess: &S, x: AbstractRingTensor<T>) -> (r:
        AbstractRingTensor<T>)
        ensures
            r@ == x@,
            r.plc == *self,
    {
        AbstractRingTensor { shape: x.shape, data: x.data, plc: self.clone() }
    }
}

/// `base` to the power of `exp`.
fn power(base: u128, exp: u32) -> (r: u128)
    requires
        vstd::arithmetic::power::pow(base as int, exp as nat) <= u128::MAX,
    ensures
        r == vstd::arithmetic::power::pow(base as int, exp as nat),
{
    if base <= 1 {
        proof {
            vstd::arithmetic::power::lemma_pow0(base as int);
            vstd::arithmetic::power::lemma1_pow(exp as nat);
            if exp > 0 {
                vstd::arithmetic::power::lemma0_pow(exp as nat);
            }
        }
        return if exp == 0 { 1 } else { base };
    }
    let mut r: u128 = 1;
    let mut i: u32 = 0;
    proof {
        vstd::arithmetic::power::lemma_pow0(base as int);
    }
    while i < exp
        invariant
            i <= exp,
            base > 1,
            r == vstd::arithmetic::power::pow(base as int, i as nat),
            vstd::arithmetic::power::pow(base as int, exp as nat) <= u128::MAX,
        decreases exp - i,
    {
        proof {
            vstd::arithmetic::power::lemma_pow_increases(
                base as nat,
                (i + 1) as nat,
                exp as nat,
            );
            vstd::arithmetic::power::lemma_pow_adds(base as int, i as nat, 1);
            vstd::arithmetic::power::lemma_pow1(base as int);
        }
        r = r * base;
        i = i + 1;
    }
    r
}

/// An axis as the kernels are given it, as an index.
pub open spec fn axis_index(axis: Option<u32>) -> Option<usize> {
    match axis {
        Some(a) => Some(a as usize),
        None => None,
    }
}

/// The mean of a fixed-point tensor.
pub struct FixedpointRingMeanOp;

impl FixedpointRingMeanOp {
    /// The mean of a 64-bit tensor at the scale `scaling_base` to the power of `scaling_exp`,
    /// placed on the host.
    pub fn kernel_ring64tensor<S, F: Quantize<u64, i64>>(
        sess: &S,
        plc: &HostPlacement,
        axis: Option<u32>,
        scaling_base: u64,
        scaling_exp: u32,
        x: Ring64Tensor,
    ) -> (r: Ring64Tensor)
        requires
            x@.wf(),
            ring::can_sum(x@.shape, axis_index(axis)),
            vstd::arithmetic::power::pow(scaling_base as int, scaling_exp as nat) <= u64::MAX,
        ensures
            r@ == mean::<u64, F>(
                x@,
                axis_index(axis),
                vstd::arithmetic::power::pow(scaling_base as int, scaling_exp as nat) as u64,
            ),
            r@.wf(),
            r.plc == *plc,
    {
        let scaling_factor = power(scaling_base as u128, scaling_exp) as u64;
        let axis = match axis {
            Some(a) => Some(a as usize),
            None => None,
        };
        let mean = Ring64Tensor::ring_mean::<F>(x, axis, scaling_factor);
        plc.place(sess, mean)
    }

    /// The mean of a 128-bit tensor at the scale `scaling_base` to the power of `scaling_exp`,
    /// placed on the host.
    pub fn kernel_ring128tensor<S, F: Quantize<u128, i128>>(
        sess: &S,
        plc: &HostPlacement,
        axis: Option<u32>,
        scaling_base: u64,
        scaling_exp: u32,
        x: Ring128Tensor,
    ) -> (r: Ring128Tensor)
        requires
            x@.wf(),
            ring::can_sum(x@.shape, axis_index(axis)),
            vstd::arithmetic::power::pow(scaling_base as int, scaling_exp as nat) <= u128::MAX,
        ensures
            r@ == mean::<u128, F>(
                x@,
                axis_index(axis),
                vstd::arithmetic::power::pow(scaling_base as int, scaling_exp as nat) as u128,
            ),
            r@.wf(),
            r.plc == *plc,
    {
        let scaling_factor = power(scaling_base as u128, scaling_exp);
        let axis = match axis {
            Some(a) => Some(a as usize),
            None => None,
        };
        let mean = Ring128Tensor::ring_mean::<F>(x, axis, scaling_factor);
        plc.place(sess, mean)
    }
}

} // verus!
