//! What holds of the operations that kernels are written in, said of single elements.
use crate::array;
use crate::array::Array;
use crate::index;
use crate::kernels;
use crate::kernels::{Constant, Precision, RepFixedTensor, SharedTensor, TensorShape};
use crate::replicated::clear::{BitTensor, HostShape};
use crate::ring::{AbstractRingTensor, RingElement};
use vstd::prelude::*;

verus! {

/// Words are compared as signed numbers: those from half of the modulus on are negative, and less
/// than all others.
pub proof fn law_comparison(x: int, y: int, m: int)
    requires
        0 <= x < m,
        0 <= y < m,
    ensures
        2 * x < m && 2 * y < m ==> (kernels::less_than(m))(x, y) == (if x < y {
            1int
        } else {
            0
        }),
        2 * x >= m && 2 * y >= m ==> (kernels::less_than(m))(x, y) == (if x < y {
            1int
        } else {
            0
        }),
        2 * x >= m && 2 * y < m ==> (kernels::less_than(m))(x, y) == 1,
        2 * x < m && 2 * y >= m ==> (kernels::less_than(m))(x, y) == 0,
        (kernels::less_than(m))(x, y) == 1 ==> (kernels::signed_max(m))(x, y) == y,
        (kernels::less_than(m))(x, y) == 0 ==> (kernels::signed_max(m))(x, y) == x,
{
}

/// Bits are injected at their position: a 1 as the power of two, a 0 as 0.
pub proof fn law_shift(x: int, bits: nat, m: int)
    requires
        vstd::arithmetic::power2::pow2(bits) < m,
    ensures
        (kernels::shift(bits, m))(0) == 0,
        (kernels::shift(bits, m))(1) == vstd::arithmetic::power2::pow2(bits),
        (kernels::shift(bits, m))(x) == (x * vstd::arithmetic::power2::pow2(bits)) % m,
{
    let p = vstd::arithmetic::power2::pow2(bits) as int;
    assert(0 * p == 0 && 1 * p == p);
    vstd::arithmetic::div_mod::lemma_small_mod(0, m as nat);
    vstd::arithmetic::div_mod::lemma_small_mod(p as nat, m as nat);
}

/// A selector picks, at each position, the first array's element where it is 1 and the second's
/// elsewhere.
pub proof fn law_select(s: Array, x: Array, y: Array, k: int)
    requires
        0 <= k < s.elems.len(),
    ensures
        kernels::select(s, x, y).shape == s.shape,
        kernels::select(s, x, y).elems.len() == s.elems.len(),
        s.elems[k] == 1 ==> kernels::select(s, x, y).elems[k] == x.elems[k],
        s.elems[k] != 1 ==> kernels::select(s, x, y).elems[k] == y.elems[k],
{
}

/// Sums and differences of fixed-point numbers need the point at one place, keep it there, and have
/// the larger of the integral precisions.
pub proof fn law_precision(p: Precision, q: Precision)
    ensures
        kernels::aligned(Some(p), Some(q)) <==> p.fractional == q.fractional,
        kernels::aligned(None, None),
        !kernels::aligned(Some(p), None),
        !kernels::aligned(None, Some(p)),
        kernels::join(Some(p), Some(q)) matches Some(r) && r.fractional == p.fractional
            && r.integral >= p.integral && r.integral >= q.integral && (r.integral == p.integral
            || r.integral == q.integral),
        kernels::join(None, None) is None,
{
}

/// Constants stand for their numbers, and a byte becomes the constant of its number.
pub proof fn law_constant(a: u8, b: u64, c: u128)
    ensures
        <Constant as vstd::std_specs::convert::FromSpec<u8>>::from_spec(a).val() == a,
        Constant::Bit(a).val() == a,
        Constant::Ring64(b).val() == b,
        Constant::Ring128(c).val() == c,
{
}

/// What kernels see of tensors in the clear: of bits, zeros and ones; of ring tensors, their words;
/// of fixed-point tensors, the words and both precisions; and of shapes, the axis lengths.
pub proof fn law_clear_tensors<T: RingElement>(
    b: BitTensor,
    x: AbstractRingTensor<T>,
    y: RepFixedTensor<AbstractRingTensor<T>>,
    shape: HostShape,
    k: int,
)
    ensures
        b.elements().shape == b.shape@,
        b.elements().elems.len() == b.data@.len(),
        0 <= k < b.data@.len() ==> b.elements().elems[k] == (if b.data@[k] {
            1int
        } else {
            0
        }),
        b.precision() is None,
        x.elements().shape == x.shape@,
        x.elements().elems.len() == x.data@.len(),
        0 <= k < x.data@.len() ==> x.elements().elems[k] == x.data@[k].val(),
        x.precision() is None,
        <AbstractRingTensor<T> as SharedTensor>::modulus() == <T as RingElement>::modulus(),
        y.elements() == y.tensor.elements(),
        y.precision() matches Some(p) && p.integral == y.integral_precision && p.fractional
            == y.fractional_precision,
        <RepFixedTensor<AbstractRingTensor<T>> as SharedTensor>::modulus()
            == <T as RingElement>::modulus(),
        shape.dims() == shape.dims@,
{
}

/// The elements of several tensors are those of each, in their order.
pub proof fn law_all_elements<X: SharedTensor>(xs: Seq<X>, i: int)
    ensures
        kernels::all_elements(xs).len() == xs.len(),
        0 <= i < xs.len() ==> kernels::all_elements(xs)[i] == xs[i].elements(),
{
}

/// An operand of a broadcast is read, for each element of the result, at the position of the last
/// coordinates of its index, with 0 along axes of length 1.
pub proof fn law_operand_positions(
    positions: Seq<usize>,
    shape: Seq<usize>,
    result_shape: Seq<usize>,
    k: int,
    idx: Seq<int>,
    i: Seq<int>,
)
    requires
        index::reads_operand(positions, shape, result_shape),
        0 <= k < array::size(result_shape),
        array::in_bounds(result_shape, idx),
        array::offset(result_shape, idx) == k,
        i.len() == shape.len(),
        forall|t: int|
            0 <= t < i.len() ==> #[trigger] i[t] == (if shape[t] == 1 {
                0
            } else {
                idx[idx.len() - i.len() + t]
            }),
    ensures
        positions.len() == array::size(result_shape),
        positions[k] == array::offset(shape, i),
{
    array::lemma_offset(result_shape, idx);
    assert(array::pick(shape, idx) =~= i);
}

} // verus!
