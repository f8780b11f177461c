//! The operations that replicated kernels are written in.
//!
//! A session supplies them for the tensors that it works on. Their contracts speak of the values
//! that the shares add up to, not of the shares.
use crate::array;
use crate::array::Array;
use crate::fixedpoint;
use crate::host_ops;
use crate::ring;
use vstd::prelude::*;

verus! {

/// A constant that tensors can be filled with.
#[derive(Debug, Clone, Copy, PartialEq, Eq)]
pub enum Constant {
    Bit(u8),
    Ring64(u64),
    Ring128(u128),
}

impl Constant {
    pub open spec fn val(self) -> int {
        match self {
            Constant::Bit(v) => v as int,
            Constant::Ring64(v) => v as int,
            Constant::Ring128(v) => v as int,
        }
    }

    /// The constant as an integer.
    pub fn value(&self) -> (r: u128)
        ensures
            r == self.val(),
    {
        match *self {
            Constant::Bit(v) => v as u128,
            Constant::Ring64(v) => v as u128,
            Constant::Ring128(v) => v,
        }
    }
}

impl From<u8> for Constant {
    fn from(v: u8) -> (r: Constant) {
        Constant::Bit(v)
    }
}

impl vstd::std_specs::convert::FromSpecImpl<u8> for Constant {
    open spec fn obeys_from_spec() -> bool {
        true
    }

    open spec fn from_spec(v: u8) -> Constant {
        Constant::Bit(v)
    }
}

/// How many bits of a fixed-point number are before the point, and how many behind it.
#[derive(Debug, Clone, Copy, PartialEq, Eq)]
pub struct Precision {
    pub integral: u32,
    pub fractional: u32,
}

/// The precision of the sum or difference of numbers of two precisions.
pub open spec fn join(p: Option<Precision>, q: Option<Precision>) -> Option<Precision> {
    match (p, q) {
        (Some(p), Some(q)) => Some(
            Precision {
                integral: if p.integral >= q.integral {
                    p.integral
                } else {
                    q.integral
                },
                fractional: p.fractional,
            },
        ),
        _ => None,
    }
}

/// Whether numbers of two precisions have the point at the same place.
pub open spec fn aligned(p: Option<Precision>, q: Option<Precision>) -> bool {
    match (p, q) {
        (Some(p), Some(q)) => p.fractional == q.fractional,
        (None, None) => true,
        _ => false,
    }
}

/// Tensors that a session works on.
pub trait SharedTensor: Sized {
    /// The ring elements that the tensor stands for.
    spec fn elements(self) -> Array;

    /// The size of the ring.
    spec fn modulus() -> int;

    /// The place of the point, for fixed-point tensors.
    spec fn precision(self) -> Option<Precision>;

    proof fn lemma_elements(x: Self)
        ensures
            Self::modulus() >= 2,
            forall|k: int|
                0 <= k < x.elements().elems.len() ==> 0 <= #[trigger] x.elements().elems[k]
                    < Self::modulus(),
    ;
}

/// Tensors of ring elements.
pub trait RingTensor: SharedTensor + Clone {
    proof fn lemma_cloned(x: Self, y: Self)
        requires
            cloned(x, y),
        ensures
            x.elements() == y.elements(),
            x.precision() == y.precision(),
    ;
}

/// Tensors of fixed-point numbers.
pub trait FixedpointTensor: SharedTensor {
    fn integral_precision(&self) -> (r: u32)
        ensures
            self.precision() matches Some(p) && p.integral == r,
    ;

    fn fractional_precision(&self) -> (r: u32)
        ensures
            self.precision() matches Some(p) && p.fractional == r,
    ;
}

/// A fixed-point tensor as a tensor of ring elements and a precision.
#[derive(Debug, PartialEq, Eq)]
pub struct RepFixedTensor<RepRingT> {
    pub tensor: RepRingT,
    pub integral_precision: u32,
    pub fractional_precision: u32,
}

/// Fixed-point tensors that can be made from a tensor of ring elements.
pub trait FromRing<RepRingT: SharedTensor>: FixedpointTensor {
    fn from_ring(x: RepFixedTensor<RepRingT>) -> (r: Self)
        ensures
            r.elements() == x.tensor.elements(),
            r.precision() == Some(
                Precision { integral: x.integral_precision, fractional: x.fractional_precision },
            ),
    ;
}

/// Shapes of tensors.
pub trait TensorShape {
    spec fn dims(&self) -> Seq<usize>;
}

/// 1 where the first number is less than the second, both read as signed words, else 0.
pub open spec fn less_than(m: int) -> spec_fn(int, int) -> int {
    |x: int, y: int|
        if ring::centered(x, m) < ring::centered(y, m) {
            1
        } else {
            0
        }
}

/// The larger of two numbers, both read as signed words.
pub open spec fn signed_max(m: int) -> spec_fn(int, int) -> int {
    |x: int, y: int|
        if ring::centered(x, m) < ring::centered(y, m) {
            y
        } else {
            x
        }
}

/// Multiplication by a power of two modulo `m`.
pub open spec fn shift(bits: nat, m: int) -> spec_fn(int) -> int {
    |x: int| (x * vstd::arithmetic::power2::pow2(bits)) % m
}

/// The elements of `x` where the selector is 1, and of `y` elsewhere.
pub open spec fn select(s: Array, x: Array, y: Array) -> Array {
    Array {
        shape: s.shape,
        elems: Seq::new(
            s.elems.len(),
            |k: int|
                if s.elems[k] == 1 {
                    x.elems[k]
                } else {
                    y.elems[k]
                },
        ),
    }
}

/// The largest elements of a non-empty sequence of arrays, compared pairwise in a tree that
/// splits the sequence in the middle.
pub open spec fn max_tree(xs: Seq<Array>, m: int) -> Array
    decreases xs.len(),
{
    if xs.len() <= 1 {
        xs[0]
    } else {
        let half = xs.len() as int / 2;
        max_tree(xs.take(half), m).zip(max_tree(xs.skip(half), m), signed_max(m))
    }
}

/// Whether each pair of arrays that the tree compares can be combined.
pub open spec fn can_max(xs: Seq<Array>, m: int) -> bool
    decreases xs.len(),
{
    if xs.len() <= 1 {
        true
    } else {
        let half = xs.len() as int / 2;
        &&& can_max(xs.take(half), m)
        &&& can_max(xs.skip(half), m)
        &&& host_ops::can_zip(
            max_tree(xs.take(half), m).shape,
            max_tree(xs.skip(half), m).shape,
        )
    }
}

/// The ring elements of each tensor.
pub open spec fn all_elements<X: SharedTensor>(xs: Seq<X>) -> Seq<Array> {
    xs.map_values(|x: X| x.elements())
}

pub trait PlacementLessThan<S, X: SharedTensor, Y: SharedTensor, B: SharedTensor> {
    fn less(&self, sess: &S, x: &X, y: &Y) -> (b: B)
        requires
            X::modulus() == Y::modulus(),
            x.elements().wf(),
            y.elements().wf(),
            host_ops::can_zip(x.elements().shape, y.elements().shape),
        ensures
            b.elements() == x.elements().zip(y.elements(), less_than(X::modulus())),
    ;
}

pub trait PlacementGreaterThan<S, X: SharedTensor, Y: SharedTensor, B: SharedTensor> {
    fn greater_than(&self, sess: &S, x: &X, y: &Y) -> (b: B)
        requires
            X::modulus() == Y::modulus(),
            x.elements().wf(),
            y.elements().wf(),
            x.elements().shape == y.elements().shape,
            aligned(x.precision(), y.precision()),
        ensures
            b.elements() == y.elements().zip(x.elements(), less_than(X::modulus())),
    ;
}

pub trait PlacementAdd<S, X: SharedTensor, Y: SharedTensor, Z: SharedTensor> {
    fn add(&self, sess: &S, x: &X, y: &Y) -> (z: Z)
        requires
            x.elements().wf(),
            y.elements().wf(),
            host_ops::can_zip(x.elements().shape, y.elements().shape),
            aligned(x.precision(), y.precision()),
        ensures
            z.elements() == x.elements().zip(y.elements(), host_ops::add_mod(Z::modulus())),
            z.precision() == join(x.precision(), y.precision()),
    ;
}

pub trait PlacementSub<S, X: SharedTensor, Y: SharedTensor, Z: SharedTensor> {
    fn sub(&self, sess: &S, x: &X, y: &Y) -> (z: Z)
        requires
            x.elements().wf(),
            y.elements().wf(),
            host_ops::can_zip(x.elements().shape, y.elements().shape),
            aligned(x.precision(), y.precision()),
        ensures
            z.elements() == x.elements().zip(y.elements(), host_ops::sub_mod(Z::modulus())),
            z.precision() == join(x.precision(), y.precision()),
    ;
}

/// The product of ring elements.
pub trait PlacementMul<S, X: SharedTensor, Y: SharedTensor, Z: SharedTensor> {
    fn mul(&self, sess: &S, x: &X, y: &Y) -> (z: Z)
        requires
            x.elements().wf(),
            y.elements().wf(),
            host_ops::can_zip(x.elements().shape, y.elements().shape),
            x.precision() is None,
            y.precision() is None,
        ensures
            z.elements() == x.elements().zip(y.elements(), host_ops::mul_mod(Z::modulus())),
            z.precision() is None,
    ;
}

/// Bits as ring elements, at a given position of the word.
pub trait PlacementRingInject<S, B: SharedTensor, R: SharedTensor> {
    fn ring_inject(&self, sess: &S, bit_idx: usize, b: &B) -> (r: R)
        requires
            b.elements().wf(),
            vstd::arithmetic::power2::pow2(bit_idx as nat) < R::modulus(),
        ensures
            r.elements() == b.elements().map(shift(bit_idx as nat, R::modulus())),
            r.precision() is None,
    ;
}

/// A constant tensor of the shape of another.
pub trait ShapeFill<S, X: SharedTensor> {
    type Result: SharedTensor;

    fn shape_fill(&self, sess: &S, value: Constant, x: &X) -> (r: Self::Result)
        requires
            x.elements().wf(),
        ensures
            r.elements() == Array::fill(
                x.elements().shape,
                value.val() % <Self::Result as SharedTensor>::modulus(),
            ),
            r.precision() is None,
            <Self::Result as SharedTensor>::modulus() == X::modulus(),
    ;
}

/// A constant tensor of a given shape.
pub trait PlacementFill<S, ShapeT: TensorShape, R: SharedTensor> {
    fn fill(&self, sess: &S, value: Constant, shape: &ShapeT) -> (r: R)
        requires
            array::valid_shape(shape.dims()),
        ensures
            r.elements() == Array::fill(shape.dims(), value.val() % R::modulus()),
    ;
}

pub trait PlacementShape<S, X: SharedTensor, ShapeT: TensorShape> {
    fn shape(&self, sess: &S, x: &X) -> (r: ShapeT)
        ensures
            r.dims() == x.elements().shape,
    ;
}

/// The subarray at a position of an axis.
pub trait PlacementIndexAxis<S, X: SharedTensor, Z: SharedTensor> {
    fn index_axis(&self, sess: &S, axis: usize, index: usize, x: &X) -> (z: Z)
        requires
            x.elements().wf(),
            axis < x.elements().shape.len(),
            index < x.elements().shape[axis as int],
        ensures
            z.elements() == x.elements().index_axis(axis as int, index as int),
            z.precision() == x.precision(),
    ;
}

/// The largest elements of several tensors.
pub trait PlacementMaximum<S, X: SharedTensor, Z: SharedTensor> {
    fn maximum(&self, sess: &S, xs: &Vec<X>) -> (z: Z)
        requires
            xs@.len() > 0,
            forall|i: int| 0 <= i < xs@.len() ==> (#[trigger] xs@[i]).elements().wf(),
            forall|i: int|
                0 <= i < xs@.len() ==> (#[trigger] xs@[i]).precision() == xs@[0].precision(),
            can_max(all_elements(xs@), X::modulus()),
        ensures
            z.elements() == max_tree(all_elements(xs@), X::modulus()),
            z.precision() == xs@[0].precision(),
    ;
}

/// The elements of one tensor where a selector is 1, and of another elsewhere.
pub trait PlacementMux<S, R: SharedTensor, X: SharedTensor, Y: SharedTensor, Z: SharedTensor> {
    fn mux(&self, sess: &S, s: &R, x: &X, y: &Y) -> (z: Z)
        requires
            s.elements().wf(),
            x.elements().wf(),
            y.elements().wf(),
            s.elements().shape == x.elements().shape,
            s.elements().shape == y.elements().shape,
            forall|k: int|
                0 <= k < s.elements().elems.len() ==> (#[trigger] s.elements().elems[k]) == 0
                    || s.elements().elems[k] == 1,
            aligned(x.precision(), y.precision()),
        ensures
            z.elements() == select(s.elements(), x.elements(), y.elements()),
            z.precision() == join(x.precision(), y.precision()),
    ;
}

/// The sums along an axis, or of all elements.
pub trait PlacementSum<S, X: SharedTensor, Z: SharedTensor> {
    fn sum(&self, sess: &S, axis: Option<u32>, x: &X) -> (z: Z)
        requires
            x.elements().wf(),
            ring::can_sum(x.elements().shape, fixedpoint::axis_index(axis)),
        ensures
            z.elements() == x.elements().sum(fixedpoint::axis_index(axis)).map(
                host_ops::reduce(Z::modulus()),
            ),
            z.precision() == x.precision(),
    ;
}

/// The exponential function. Sessions approximate it, each in its own way and not always alike.
pub trait PlacementExp<S, X: SharedTensor, Z: SharedTensor> {
    /// Whether the session may have `z` for the exponentials of `x` at the precision.
    spec fn is_exp(&self, sess: &S, precision: Option<Precision>, x: Array, z: Array) -> bool;

    fn exp(&self, sess: &S, x: &X) -> (z: Z)
        requires
            x.elements().wf(),
        ensures
            self.is_exp(sess, x.precision(), x.elements(), z.elements()),
            z.elements().wf(),
            z.elements().shape == x.elements().shape,
            z.precision() == x.precision(),
    ;
}

/// Division. Sessions approximate it, each in its own way and not always alike.
pub trait PlacementDiv<S, X: SharedTensor, Y: SharedTensor, Z: SharedTensor> {
    /// Whether the session may have `z` for the quotients of `x` and `y` at the precision.
    spec fn is_quotient(
        &self,
        sess: &S,
        precision: Option<Precision>,
        x: Array,
        y: Array,
        z: Array,
    ) -> bool;

    fn div(&self, sess: &S, x: &X, y: &Y) -> (z: Z)
        requires
            x.elements().wf(),
            y.elements().wf(),
            host_ops::can_zip(x.elements().shape, y.elements().shape),
            x.precision() == y.precision(),
        ensures
            self.is_quotient(sess, x.precision(), x.elements(), y.elements(), z.elements()),
            z.elements().wf(),
            z.elements().shape == array::broadcast_shape(x.elements().shape, y.elements().shape),
            z.precision() == x.precision(),
    ;
}

} // verus!
