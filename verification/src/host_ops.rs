//! Array arithmetic modulo 2^64 and 2^128, done by `ndarray` on wrapping integers.
//!
//! The functions here take and give an array as its shape and its elements in row-major order.
use crate::array;
use crate::array::Array;
use ndarray::{ArrayD, Axis, IxDyn};
use std::num::Wrapping;
use std::ops::Mul;
use vstd::prelude::*;

verus! {

/// 2^64.
pub open spec fn modulus_64() -> int {
    0x1_0000_0000_0000_0000int
}

/// 2^128.
pub open spec fn modulus_128() -> int {
    0x1_0000_0000_0000_0000_0000_0000_0000_0000int
}

/// Reduction modulo `m`.
pub open spec fn reduce(m: int) -> spec_fn(int) -> int {
    |x: int| x % m
}

/// Addition modulo `m`.
pub open spec fn add_mod(m: int) -> spec_fn(int, int) -> int {
    |x: int, y: int| (x + y) % m
}

/// Subtraction modulo `m`.
pub open spec fn sub_mod(m: int) -> spec_fn(int, int) -> int {
    |x: int, y: int| (x - y) % m
}

/// Multiplication modulo `m`.
pub open spec fn mul_mod(m: int) -> spec_fn(int, int) -> int {
    |x: int, y: int| (x * y) % m
}

/// The array of 64-bit ring elements with this shape and these elements.
pub open spec fn array_64(shape: Seq<usize>, data: Seq<u64>) -> Array {
    Array { shape, elems: data.map_values(|v: u64| v as int) }
}

/// The array of 128-bit ring elements with this shape and these elements.
pub open spec fn array_128(shape: Seq<usize>, data: Seq<u128>) -> Array {
    Array { shape, elems: data.map_values(|v: u128| v as int) }
}

/// Whether the sums along `axis` of an array of this shape can be allocated: there are no more
/// of them than elements, or they fit in memory at 16 bytes each.
pub open spec fn can_sum(shape: Seq<usize>, axis: int) -> bool {
    shape[axis] > 0 || array::size(shape.remove(axis)) * 16 <= isize::MAX
}

/// Whether arrays of these shapes can be combined element by element: they broadcast together,
/// and the result has the shape of the first, or is a valid shape and fits in memory at 16 bytes
/// an element.
pub open spec fn can_zip(s: Seq<usize>, t: Seq<usize>) -> bool {
    &&& array::can_broadcast(s, t)
    &&& array::broadcast_shape(s, t) == s || (array::valid_shape(array::broadcast_shape(s, t)) && array::size(
        array::broadcast_shape(s, t),
    ) * 16 <= isize::MAX)
}

/// The sum of all elements, by `ArrayBase::sum`. Claimed: the sum of the elements modulo 2^64.
#[verifier::external_body]
pub(crate) fn sum_64(shape: &Vec<usize>, data: &Vec<u64>) -> (r: u64)
    requires
        array_64(shape@, data@).wf(),
    ensures
        r == array::seq_sum(array_64(shape@, data@).elems) % modulus_64(),
{
    let wrapped = data.iter().map(|v| Wrapping(*v)).collect();
    ArrayD::from_shape_vec(IxDyn(shape), wrapped).unwrap().sum().0
}

/// The sum of all elements, by `ArrayBase::sum`. Claimed: the sum of the elements modulo 2^128.
#[verifier::external_body]
pub(crate) fn sum_128(shape: &Vec<usize>, data: &Vec<u128>) -> (r: u128)
    requires
        array_128(shape@, data@).wf(),
    ensures
        r == array::seq_sum(array_128(shape@, data@).elems) % modulus_128(),
{
    let wrapped = data.iter().map(|v| Wrapping(*v)).collect();
    ArrayD::from_shape_vec(IxDyn(shape), wrapped).unwrap().sum().0
}

/// The sums along an axis, by `ArrayBase::sum_axis`. Claimed: the axis is gone from the shape, and
/// each element is the sum modulo 2^64 of the elements along that axis.
#[verifier::external_body]
pub(crate) fn sum_axis_64(shape: &Vec<usize>, data: &Vec<u64>, axis: usize) -> (r: (
    Vec<usize>,
    Vec<u64>,
))
    requires
        array_64(shape@, data@).wf(),
        axis < shape@.len(),
        can_sum(shape@, axis as int),
    ensures
        array_64(r.0@, r.1@) == array_64(shape@, data@).sum_axis(axis as int).map(
            reduce(modulus_64()),
        ),
{
    let wrapped = data.iter().map(|v| Wrapping(*v)).collect();
    let sums = ArrayD::from_shape_vec(IxDyn(shape), wrapped).unwrap().sum_axis(Axis(axis));
    (sums.shape().to_vec(), sums.iter().map(|v| v.0).collect())
}

/// The sums along an axis, by `ArrayBase::sum_axis`. Claimed: the axis is gone from the shape, and
/// each element is the sum modulo 2^128 of the elements along that axis.
#[verifier::external_body]
pub(crate) fn sum_axis_128(shape: &Vec<usize>, data: &Vec<u128>, axis: usize) -> (r: (
    Vec<usize>,
    Vec<u128>,
))
    requires
        array_128(shape@, data@).wf(),
        axis < shape@.len(),
        can_sum(shape@, axis as int),
    ensures
        array_128(r.0@, r.1@) == array_128(shape@, data@).sum_axis(axis as int).map(
            reduce(modulus_128()),
        ),
{
    let wrapped = data.iter().map(|v| Wrapping(*v)).collect();
    let sums = ArrayD::from_shape_vec(IxDyn(shape), wrapped).unwrap().sum_axis(Axis(axis));
    (sums.shape().to_vec(), sums.iter().map(|v| v.0).collect())
}

/// The elementwise product, by the `Mul` of two owned arrays. Claimed: the operands are broadcast
/// to their common shape, and each element is the product modulo 2^64.
#[verifier::external_body]
pub(crate) fn mul_64(
    shape: &Vec<usize>,
    data: &Vec<u64>,
    other_shape: &Vec<usize>,
    other_data: &Vec<u64>,
) -> (r: (Vec<usize>, Vec<u64>))
    requires
        array_64(shape@, data@).wf(),
        array_64(other_shape@, other_data@).wf(),
        can_zip(shape@, other_shape@),
    ensures
        array_64(r.0@, r.1@) == array_64(shape@, data@).zip(
            array_64(other_shape@, other_data@),
            mul_mod(modulus_64()),
        ),
{
    let wrapped = data.iter().map(|v| Wrapping(*v)).collect();
    let other_wrapped = other_data.iter().map(|v| Wrapping(*v)).collect();
    let other = ArrayD::from_shape_vec(IxDyn(other_shape), other_wrapped).unwrap();
    let product = ArrayD::from_shape_vec(IxDyn(shape), wrapped).unwrap().mul(other);
    (product.shape().to_vec(), product.iter().map(|v| v.0).collect())
}

/// The elementwise product, by the `Mul` of two owned arrays. Claimed: the operands are broadcast
/// to their common shape, and each element is the product modulo 2^128.
#[verifier::external_body]
pub(crate) fn mul_128(
    shape: &Vec<usize>,
    data: &Vec<u128>,
    other_shape: &Vec<usize>,
    other_data: &Vec<u128>,
) -> (r: (Vec<usize>, Vec<u128>))
    requires
        array_128(shape@, data@).wf(),
        array_128(other_shape@, other_data@).wf(),
        can_zip(shape@, other_shape@),
    ensures
        array_128(r.0@, r.1@) == array_128(shape@, data@).zip(
            array_128(other_shape@, other_data@),
            mul_mod(modulus_128()),
        ),
{
    let wrapped = data.iter().map(|v| Wrapping(*v)).collect();
    let other_wrapped = other_data.iter().map(|v| Wrapping(*v)).collect();
    let other = ArrayD::from_shape_vec(IxDyn(other_shape), other_wrapped).unwrap();
    let product = ArrayD::from_shape_vec(IxDyn(shape), wrapped).unwrap().mul(other);
    (product.shape().to_vec(), product.iter().map(|v| v.0).collect())
}

} // verus!
