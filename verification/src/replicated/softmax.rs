//! The maximum of several tensors, and the softmax along an axis.
use crate::array;
use crate::array::Array;
use crate::error::{Error, Result};
use crate::fixedpoint;
use crate::fixedpoint_laws;
use crate::host_ops;
use crate::kernels;
use crate::kernels::{
    Constant, FixedpointTensor, FromRing, PlacementAdd, PlacementDiv, PlacementExp, PlacementFill,
    PlacementGreaterThan, PlacementIndexAxis, PlacementLessThan, PlacementMaximum, PlacementMul,
    PlacementMux, PlacementRingInject, PlacementShape, PlacementSub, PlacementSum, RepFixedTensor,
    RingTensor, ShapeFill, SharedTensor, TensorShape,
};
use crate::placement::ReplicatedPlacement;
use crate::ring;
use vstd::prelude::*;
use vstd::slice::slice_subrange;

verus! {

/// The message of the error on an empty array of tensors.
pub open spec fn empty_maximum() -> Seq<char> {
    "maximum op needs a non-empty array of tensors"@
}

/// Choosing between two elements by a bit that is 1 where the first is the smaller: the bit times
/// the second plus one minus the bit times the first.
proof fn lemma_choose(x: int, y: int, m: int)
    requires
        m >= 2,
        0 <= x < m,
        0 <= y < m,
    ensures
        ({
            let l = (kernels::less_than(m))(x, y);
            let chosen = host_ops::add_mod(m)(
                host_ops::mul_mod(m)(l, y),
                host_ops::mul_mod(m)(host_ops::sub_mod(m)(1, l), x),
            );
            chosen == (kernels::signed_max(m))(x, y)
        }),
{
    vstd::arithmetic::div_mod::lemma_small_mod(x as nat, m as nat);
    vstd::arithmetic::div_mod::lemma_small_mod(y as nat, m as nat);
    vstd::arithmetic::div_mod::lemma_small_mod(0, m as nat);
    vstd::arithmetic::div_mod::lemma_small_mod(1, m as nat);
    assert(0 * x == 0 && 1 * x == x && 0 * y == 0 && 1 * y == y);
}

/// What the pairwise comparison computes, in terms of the arrays.
proof fn lemma_pairwise(a: Array, b: Array, m: int)
    requires
        m >= 2,
        a.wf(),
        b.wf(),
        host_ops::can_zip(a.shape, b.shape),
        forall|k: int| 0 <= k < a.elems.len() ==> 0 <= #[trigger] a.elems[k] < m,
        forall|k: int| 0 <= k < b.elems.len() ==> 0 <= #[trigger] b.elems[k] < m,
    ensures
        ({
            let r = array::broadcast_shape(a.shape, b.shape);
            let lesser = a.zip(b, kernels::less_than(m)).map(kernels::shift(0, m));
            let ones = Array::fill(r, 1int % m);
            let rest = ones.zip(lesser, host_ops::sub_mod(m));
            let left = lesser.zip(b, host_ops::mul_mod(m));
            let right = rest.zip(a, host_ops::mul_mod(m));
            &&& a.zip(b, kernels::less_than(m)).wf()
            &&& lesser.wf()
            &&& lesser.shape == r
            &&& ones.wf()
            &&& host_ops::can_zip(ones.shape, lesser.shape)
            &&& rest.wf()
            &&& rest.shape == r
            &&& host_ops::can_zip(lesser.shape, b.shape)
            &&& left.wf()
            &&& left.shape == r
            &&& host_ops::can_zip(rest.shape, a.shape)
            &&& right.wf()
            &&& right.shape == r
            &&& host_ops::can_zip(left.shape, right.shape)
            &&& left.zip(right, host_ops::add_mod(m)) == a.zip(b, kernels::signed_max(m))
            &&& a.zip(b, kernels::signed_max(m)).wf()
        }),
{
    let r = array::broadcast_shape(a.shape, b.shape);
    assert(array::valid_shape(r));
    let raw = a.zip(b, kernels::less_than(m));
    let lesser = raw.map(kernels::shift(0, m));
    let ones = Array::fill(r, 1int % m);
    let rest = ones.zip(lesser, host_ops::sub_mod(m));
    let left = lesser.zip(b, host_ops::mul_mod(m));
    let right = rest.zip(a, host_ops::mul_mod(m));
    let sum = left.zip(right, host_ops::add_mod(m));
    let want = a.zip(b, kernels::signed_max(m));
    array::lemma_broadcast_absorb(a.shape, b.shape);
    array::lemma_zip_same_shape(ones, lesser, host_ops::sub_mod(m));
    array::lemma_zip_same_shape(left, right, host_ops::add_mod(m));
    array::lemma_broadcast_same(r);
    vstd::arithmetic::power2::lemma2_to64();
    vstd::arithmetic::div_mod::lemma_small_mod(0, m as nat);
    vstd::arithmetic::div_mod::lemma_small_mod(1, m as nat);
    assert forall|k: int| 0 <= k < want.elems.len() implies sum.elems[k] == want.elems[k] by {
        array::lemma_unravel(r, k);
        let idx = array::unravel(r, k);
        array::lemma_pick_in_bounds(a.shape, b.shape, idx);
        array::lemma_pick_same(r, idx);
        let x = a.broadcast_at(idx);
        let y = b.broadcast_at(idx);
        array::lemma_offset(a.shape, array::pick(a.shape, idx));
        array::lemma_offset(b.shape, array::pick(b.shape, idx));
        assert(0 <= x < m);
        assert(0 <= y < m);
        let l = (kernels::less_than(m))(x, y);
        assert(raw.elems[k] == l);
        assert(lesser.elems[k] == l);
        assert(lesser.broadcast_at(idx) == l);
        assert(rest.elems[k] == (host_ops::sub_mod(m))(1, l));
        assert(rest.broadcast_at(idx) == rest.elems[k]);
        lemma_choose(x, y, m);
    }
    assert(sum =~= want);
}

/// The maximum of several tensors.
pub struct MaximumOp;

impl MaximumOp {
    /// The largest elements of several tensors, compared as signed words in a tree of pairs. Those
    /// of a single tensor are a clone of it.
    pub fn kernel<S, RepRingT, RepBitT, MirRingT>(
        sess: &S,
        plc: &ReplicatedPlacement,
        x: &[RepRingT],
    ) -> (r: Result<RepRingT>) where
        RepRingT: RingTensor,
        RepBitT: SharedTensor,
        MirRingT: SharedTensor,
        ReplicatedPlacement: PlacementLessThan<S, RepRingT, RepRingT, RepBitT>,
        ReplicatedPlacement: PlacementMul<S, RepRingT, RepRingT, RepRingT>,
        ReplicatedPlacement: PlacementRingInject<S, RepBitT, RepRingT>,
        ReplicatedPlacement: PlacementAdd<S, RepRingT, RepRingT, RepRingT>,
        ReplicatedPlacement: ShapeFill<S, RepRingT, Result = MirRingT>,
        ReplicatedPlacement: PlacementSub<S, MirRingT, RepRingT, RepRingT>,

        requires
            forall|i: int| 0 <= i < x@.len() ==> (#[trigger] x@[i]).elements().wf(),
            forall|i: int| 0 <= i < x@.len() ==> (#[trigger] x@[i]).precision() is None,
            kernels::can_max(kernels::all_elements(x@), RepRingT::modulus()),
        ensures
            match r {
                Ok(z) => {
                    &&& x@.len() > 0
                    &&& z.elements() == kernels::max_tree(
                        kernels::all_elements(x@),
                        RepRingT::modulus(),
                    )
                    &&& z.elements().wf()
                    &&& z.precision() is None
                    &&& x@.len() == 1 ==> cloned(x@[0], z)
                },
                Err(e) => {
                    &&& x@.len() == 0
                    &&& e matches Error::InvalidArgument(message) && message@ == empty_maximum()
                },
            },
        decreases x@.len(),
    {
        let n = x.len();
        if n == 0 {
            Err(
                Error::InvalidArgument(
                    "maximum op needs a non-empty array of tensors".to_string(),
                ),
            )
        } else if n == 1 {
            let z = x[0].clone();
            proof {
                RepRingT::lemma_cloned(x@[0], z);
            }
            Ok(z)
        } else {
            let chunk1 = slice_subrange(x, 0, n / 2);
            let chunk2 = slice_subrange(x, n / 2, n);
            let ghost m = RepRingT::modulus();
            let ghost all = kernels::all_elements(x@);
            proof {
                assert(kernels::all_elements(chunk1@) =~= all.take(n as int / 2));
                assert(kernels::all_elements(chunk2@) =~= all.skip(n as int / 2));
            }
            let max_chunk1 = match Self::kernel::<S, RepRingT, RepBitT, MirRingT>(
                sess,
                plc,
                chunk1,
            ) {
                Ok(z) => z,
                Err(e) => return Err(e),
            };
            let max_chunk2 = match Self::kernel::<S, RepRingT, RepBitT, MirRingT>(
                sess,
                plc,
                chunk2,
            ) {
                Ok(z) => z,
                Err(e) => return Err(e),
            };
            proof {
                RepRingT::lemma_elements(max_chunk1);
                RepRingT::lemma_elements(max_chunk2);
                lemma_pairwise(max_chunk1.elements(), max_chunk2.elements(), m);
                vstd::arithmetic::power2::lemma2_to64();
            }
            let lesser: RepBitT = plc.less(sess, &max_chunk1, &max_chunk2);
            let lesser_ring: RepRingT = plc.ring_inject(sess, 0, &lesser);
            let ones: MirRingT = plc.shape_fill(sess, Constant::Ring64(1), &lesser_ring);
            let left: RepRingT = plc.mul(sess, &lesser_ring, &max_chunk2);
            let rest: RepRingT = plc.sub(sess, &ones, &lesser_ring);
            let right: RepRingT = plc.mul(sess, &rest, &max_chunk1);
            let expr: RepRingT = plc.add(sess, &left, &right);
            Ok(expr)
        }
    }
}

/// The first `n` subarrays along an axis.
pub open spec fn slices(x: Array, axis: int, n: nat) -> Seq<Array> {
    Seq::new(n, |i: int| x.index_axis(axis, i))
}

/// The differences to the largest elements along an axis.
pub open spec fn differences(x: Array, axis: int, n: nat, m: int) -> Array {
    x.zip(kernels::max_tree(slices(x, axis, n), m), host_ops::sub_mod(m))
}

/// The exponentials, with 0 in place of those whose argument is below the bound.
pub open spec fn sanitized(exponents: Array, exponentials: Array, bound: int, m: int) -> Array {
    Array {
        shape: exponents.shape,
        elems: Seq::new(
            exponents.elems.len(),
            |k: int|
                if ring::centered(exponents.elems[k], m) < ring::centered(bound, m) {
                    0
                } else {
                    exponentials.elems[k]
                },
        ),
    }
}

/// Whether the softmax along an axis can be taken of an array of this shape: the axis is there and
/// is at least `n` and `n` at least 1 long, and the arrays without the axis can be combined with
/// those that have it.
pub open spec fn can_softmax(shape: Seq<usize>, axis: Option<u32>, n: nat) -> bool {
    &&& axis matches Some(a) && {
        let removed = shape.remove(a as int);
        let wide = array::broadcast_shape(shape, removed);
        &&& a < shape.len()
        &&& 0 < n <= shape[a as int]
        &&& host_ops::can_zip(shape, removed)
        &&& host_ops::can_sum(wide, a as int)
        &&& host_ops::can_zip(wide, wide.remove(a as int))
    }
}

/// Subarrays of one array have one shape, so that their maximum has it too.
proof fn lemma_max_tree_shape(xs: Seq<Array>, m: int)
    requires
        xs.len() > 0,
        forall|i: int| 0 <= i < xs.len() ==> (#[trigger] xs[i]).wf(),
        forall|i: int| 0 <= i < xs.len() ==> (#[trigger] xs[i]).shape == xs[0].shape,
    ensures
        kernels::max_tree(xs, m).wf(),
        kernels::max_tree(xs, m).shape == xs[0].shape,
        kernels::can_max(xs, m),
    decreases xs.len(),
{
    if xs.len() > 1 {
        let half = xs.len() as int / 2;
        let left = xs.take(half);
        let right = xs.skip(half);
        assert forall|i: int| 0 <= i < right.len() implies (#[trigger] right[i]).wf()
            && right[i].shape == xs[0].shape by {
            assert(right[i] == xs[half + i]);
        }
        assert(right[0].shape == xs[0].shape);
        lemma_max_tree_shape(left, m);
        lemma_max_tree_shape(right, m);
        array::lemma_broadcast_same(xs[0].shape);
    }
}

/// The maximum of arrays of one shape is, at each position, an element of one of them, and none of
/// the others is larger there.
pub proof fn law_maximum(xs: Seq<Array>, m: int, k: int)
    requires
        xs.len() > 0,
        forall|i: int| 0 <= i < xs.len() ==> (#[trigger] xs[i]).wf(),
        forall|i: int| 0 <= i < xs.len() ==> (#[trigger] xs[i]).shape == xs[0].shape,
        0 <= k < xs[0].elems.len(),
    ensures
        kernels::max_tree(xs, m).shape == xs[0].shape,
        exists|i: int|
            0 <= i < xs.len() && kernels::max_tree(xs, m).elems[k] == (#[trigger] xs[i]).elems[k],
        forall|i: int|
            0 <= i < xs.len() ==> ring::centered((#[trigger] xs[i]).elems[k], m) <= ring::centered(
                kernels::max_tree(xs, m).elems[k],
                m,
            ),
    decreases xs.len(),
{
    lemma_max_tree_shape(xs, m);
    if xs.len() == 1 {
        assert(kernels::max_tree(xs, m).elems[k] == xs[0].elems[k]);
    } else {
        let half = xs.len() as int / 2;
        let left = xs.take(half);
        let right = xs.skip(half);
        assert forall|i: int| 0 <= i < right.len() implies (#[trigger] right[i]).wf()
            && right[i].shape == xs[0].shape by {
            assert(right[i] == xs[half + i]);
        }
        assert(right[0].shape == xs[0].shape);
        lemma_max_tree_shape(left, m);
        lemma_max_tree_shape(right, m);
        law_maximum(left, m, k);
        law_maximum(right, m, k);
        let a = kernels::max_tree(left, m);
        let b = kernels::max_tree(right, m);
        array::lemma_zip_same_shape(a, b, kernels::signed_max(m));
        let i = choose|i: int| 0 <= i < left.len() && a.elems[k] == (#[trigger] left[i]).elems[k];
        let j = choose|j: int|
            0 <= j < right.len() && b.elems[k] == (#[trigger] right[j]).elems[k];
        assert(left[i] == xs[i]);
        assert(right[j] == xs[half + j]);
        let z = kernels::max_tree(xs, m);
        assert(z.elems[k] == (kernels::signed_max(m))(a.elems[k], b.elems[k]));
        assert forall|i: int| 0 <= i < xs.len() implies ring::centered(
            (#[trigger] xs[i]).elems[k],
            m,
        ) <= ring::centered(z.elems[k], m) by {
            if i < half {
                assert(left[i] == xs[i]);
            } else {
                assert(right[i - half] == xs[i]);
            }
        }
    }
}

/// An index of an array, moved to another position of the first axis.
pub open spec fn moved(idx: Seq<int>, i: int) -> Seq<int> {
    idx.drop_first().insert(0, i)
}

/// What the differences along the first axis are made of.
proof fn lemma_differences(x: Array, m: int, k: int)
    requires
        m >= 2,
        x.wf(),
        x.shape.len() > 0,
        0 <= k < x.elems.len(),
    ensures
        ({
            let n = x.shape[0] as nat;
            let idx = array::unravel(x.shape, k);
            let largest = kernels::max_tree(slices(x, 0, n), m);
            let k0 = array::offset(x.shape.remove(0), idx.drop_first());
            let diff = differences(x, 0, n, m);
            &&& diff.shape == x.shape
            &&& diff.elems.len() == x.elems.len()
            &&& diff.elems[k] == (x.elems[k] - largest.elems[k0]) % m
            &&& exists|i: int|
                0 <= i < n && largest.elems[k0] == x.at(#[trigger] moved(idx, i)) && array::in_bounds(
                    x.shape,
                    moved(idx, i),
                )
            &&& forall|i: int|
                0 <= i < n ==> ring::centered(x.at(#[trigger] moved(idx, i)), m) <= ring::centered(
                    largest.elems[k0],
                    m,
                )
        }),
{
    let n = x.shape[0] as nat;
    let rest = x.shape.remove(0);
    let all = slices(x, 0, n);
    let idx = array::unravel(x.shape, k);
    let tail = idx.drop_first();
    array::lemma_unravel(x.shape, k);
    array::lemma_remove_axis_wf(x, 0);
    assert(array::in_bounds(rest, tail)) by {
        assert forall|i: int| 0 <= i < rest.len() implies 0 <= #[trigger] tail[i] < rest[i] by {
            assert(0 <= idx[i + 1] < x.shape[i + 1]);
        }
    }
    array::lemma_offset(rest, tail);
    let k0 = array::offset(rest, tail);
    assert(0 <= idx[0] < n);
    assert forall|i: int| 0 <= i < all.len() implies (#[trigger] all[i]).wf() && all[i].shape
        == all[0].shape by {
        assert(x.index_axis(0, i).wf());
    }
    law_maximum(all, m, k0);
    let largest = kernels::max_tree(all, m);
    assert forall|i: int| 0 <= i < n implies (#[trigger] all[i]).elems[k0] == x.at(
        moved(idx, i),
    ) by {
        assert(array::unravel(rest, k0).insert(0, i) == moved(idx, i));
    }
    assert forall|j: int|
        #![trigger array::dim_from_end(x.shape, j)]
        array::dim_from_end(x.shape, j) == array::dim_from_end(rest, j) || array::dim_from_end(
            rest,
            j,
        ) == 1 by {
        if 0 <= j < rest.len() {
            assert(rest[rest.len() - 1 - j] == x.shape[x.shape.len() - 1 - j]);
        }
    }
    let diff = differences(x, 0, n, m);
    assert(diff.shape =~= x.shape) by {
        assert forall|i: int| 0 <= i < x.shape.len() implies diff.shape[i] == x.shape[i] by {
            let j = x.shape.len() - 1 - i;
            assert(array::dim_from_end(x.shape, j) == x.shape[i]);
        }
    }
    array::lemma_pick_same(x.shape, idx);
    assert(array::pick(rest, idx) =~= tail) by {
        assert forall|i: int| 0 <= i < rest.len() implies array::pick(rest, idx)[i] == tail[i] by {
            assert(0 <= tail[i] < rest[i]);
        }
    }
    let i = choose|i: int|
        0 <= i < all.len() && largest.elems[k0] == (#[trigger] all[i]).elems[k0];
    assert(largest.elems[k0] == x.at(moved(idx, i)));
    array::lemma_insert_in_bounds(x.shape, 0, tail, i);
    assert forall|i: int| 0 <= i < n implies ring::centered(x.at(#[trigger] moved(idx, i)), m)
        <= ring::centered(largest.elems[k0], m) by {
        assert(all[i].elems[k0] == x.at(moved(idx, i)));
    }
}

/// Along the first axis, the exponents are the differences to a largest element: where the
/// subtraction does not leave the signed range, none is positive.
pub proof fn law_exponents_not_positive(x: Array, m: int, k: int)
    requires
        m >= 2,
        x.wf(),
        x.shape.len() > 0,
        forall|j: int| 0 <= j < x.elems.len() ==> 0 <= #[trigger] x.elems[j] < m,
        0 <= k < x.elems.len(),
        forall|i: int|
            0 <= i < x.shape[0] ==> -m <= 2 * (ring::centered(x.elems[k], m) - ring::centered(
                x.at(#[trigger] moved(array::unravel(x.shape, k), i)),
                m,
            )),
    ensures
        differences(x, 0, x.shape[0] as nat, m).shape == x.shape,
        ring::centered(differences(x, 0, x.shape[0] as nat, m).elems[k], m) <= 0,
{
    lemma_differences(x, m, k);
    let idx = array::unravel(x.shape, k);
    array::lemma_unravel(x.shape, k);
    let k0 = array::offset(x.shape.remove(0), idx.drop_first());
    let top = kernels::max_tree(slices(x, 0, x.shape[0] as nat), m).elems[k0];
    assert(moved(idx, idx[0]) =~= idx);
    assert(x.at(moved(idx, idx[0])) == x.elems[k]);
    let i = choose|i: int|
        0 <= i < x.shape[0] && top == x.at(#[trigger] moved(idx, i)) && array::in_bounds(
            x.shape,
            moved(idx, i),
        );
    array::lemma_offset(x.shape, moved(idx, i));
    let v = ring::centered(x.elems[k], m) - ring::centered(top, m);
    lemma_centered_difference(x.elems[k], top, m);
    fixedpoint_laws::law_centered_residue(v, m);
}

/// Along the first axis, some exponent is zero at every position: that of a largest element.
pub proof fn law_some_exponent_is_zero(x: Array, m: int, k: int)
    requires
        m >= 2,
        x.wf(),
        x.shape.len() > 0,
        0 <= k < x.elems.len(),
    ensures
        exists|i: int|
            0 <= i < x.shape[0] && differences(x, 0, x.shape[0] as nat, m).at(
                #[trigger] moved(array::unravel(x.shape, k), i),
            ) == 0,
{
    lemma_differences(x, m, k);
    let idx = array::unravel(x.shape, k);
    array::lemma_unravel(x.shape, k);
    let k0 = array::offset(x.shape.remove(0), idx.drop_first());
    let top = kernels::max_tree(slices(x, 0, x.shape[0] as nat), m).elems[k0];
    let i = choose|i: int|
        0 <= i < x.shape[0] && top == x.at(#[trigger] moved(idx, i)) && array::in_bounds(
            x.shape,
            moved(idx, i),
        );
    let there = moved(idx, i);
    array::lemma_offset(x.shape, there);
    let k1 = array::offset(x.shape, there);
    lemma_differences(x, m, k1);
    assert(there.drop_first() =~= idx.drop_first());
    vstd::arithmetic::div_mod::lemma_small_mod(0, m as nat);
}

/// A difference of words, in the ring and of the signed numbers that they stand for.
proof fn lemma_centered_difference(x: int, y: int, m: int)
    requires
        m >= 2,
    ensures
        (x - y) % m == (ring::centered(x, m) - ring::centered(y, m)) % m,
{
    let v = ring::centered(x, m) - ring::centered(y, m);
    vstd::arithmetic::div_mod::lemma_mod_add_multiples_vanish(v, m);
    vstd::arithmetic::div_mod::lemma_mod_sub_multiples_vanish(v, m);
}

/// Whether a shape has, aligned at the last axes, all axis lengths of another that are not 1.
spec fn covers(r: Seq<usize>, s: Seq<usize>) -> bool {
    &&& s.len() <= r.len()
    &&& forall|j: int|
        #![trigger array::dim_from_end(s, j)]
        #![trigger array::dim_from_end(r, j)]
        array::dim_from_end(s, j) == 1 || array::dim_from_end(r, j) == array::dim_from_end(s, j)
}

proof fn lemma_broadcast_covers(s: Seq<usize>, t: Seq<usize>)
    requires
        array::can_broadcast(s, t),
    ensures
        covers(array::broadcast_shape(s, t), s),
        covers(array::broadcast_shape(s, t), t),
{
    let r = array::broadcast_shape(s, t);
    assert forall|j: int|
        #![trigger array::dim_from_end(s, j)]
        #![trigger array::dim_from_end(r, j)]
        array::dim_from_end(s, j) == 1 || array::dim_from_end(r, j) == array::dim_from_end(
            s,
            j,
        ) by {
        array::lemma_broadcast_dim(s, t, j);
    }
    assert forall|j: int|
        #![trigger array::dim_from_end(t, j)]
        #![trigger array::dim_from_end(r, j)]
        array::dim_from_end(t, j) == 1 || array::dim_from_end(r, j) == array::dim_from_end(
            t,
            j,
        ) by {
        array::lemma_broadcast_dim(s, t, j);
    }
}

proof fn lemma_covers_transitive(r: Seq<usize>, s: Seq<usize>, t: Seq<usize>)
    requires
        covers(r, s),
        covers(s, t),
    ensures
        covers(r, t),
{
    assert forall|j: int|
        #![trigger array::dim_from_end(t, j)]
        #![trigger array::dim_from_end(r, j)]
        array::dim_from_end(t, j) == 1 || array::dim_from_end(r, j) == array::dim_from_end(
            t,
            j,
        ) by {
        assert(array::dim_from_end(s, j) == 1 || array::dim_from_end(r, j)
            == array::dim_from_end(s, j));
    }
}

/// Reading an operand by way of a partial result is reading it by the whole index.
proof fn lemma_pick_through(s: Seq<usize>, r: Seq<usize>, idx: Seq<int>)
    requires
        covers(r, s),
        idx.len() >= r.len(),
    ensures
        array::pick(s, array::pick(r, idx)) == array::pick(s, idx),
{
    let through = array::pick(s, array::pick(r, idx));
    assert forall|i: int| 0 <= i < s.len() implies through[i] == array::pick(s, idx)[i] by {
        let j = s.len() - 1 - i;
        assert(array::dim_from_end(s, j) == s[i]);
        assert(array::dim_from_end(r, j) == r[r.len() - s.len() + i]);
    }
    assert(through =~= array::pick(s, idx));
}

proof fn lemma_tree_covers(xs: Seq<Array>, m: int, i: int)
    requires
        forall|i: int| 0 <= i < xs.len() ==> (#[trigger] xs[i]).wf(),
        kernels::can_max(xs, m),
        0 <= i < xs.len(),
    ensures
        kernels::max_tree(xs, m).wf(),
        covers(kernels::max_tree(xs, m).shape, xs[i].shape),
    decreases xs.len(),
{
    if xs.len() > 1 {
        let half = xs.len() as int / 2;
        let left = xs.take(half);
        let right = xs.skip(half);
        assert forall|i: int| 0 <= i < right.len() implies (#[trigger] right[i]).wf() by {
            assert(right[i] == xs[half + i]);
        }
        assert forall|i: int| 0 <= i < left.len() implies (#[trigger] left[i]).wf() by {
            assert(left[i] == xs[i]);
        }
        let a = kernels::max_tree(left, m).shape;
        let b = kernels::max_tree(right, m).shape;
        lemma_tree_covers(left, m, 0);
        lemma_tree_covers(right, m, 0);
        lemma_broadcast_covers(a, b);
        if i < half {
            lemma_tree_covers(left, m, i);
            lemma_covers_transitive(array::broadcast_shape(a, b), a, left[i].shape);
        } else {
            lemma_tree_covers(right, m, i - half);
            lemma_covers_transitive(array::broadcast_shape(a, b), b, right[i - half].shape);
        }
    }
}

/// The maximum of arrays that broadcast together is, at each index, an element that the index names
/// in one of them, and none that it names in the others is larger.
pub proof fn law_maximum_broadcast(xs: Seq<Array>, m: int, idx: Seq<int>)
    requires
        xs.len() > 0,
        forall|i: int| 0 <= i < xs.len() ==> (#[trigger] xs[i]).wf(),
        kernels::can_max(xs, m),
        array::in_bounds(kernels::max_tree(xs, m).shape, idx),
    ensures
        kernels::max_tree(xs, m).wf(),
        exists|i: int|
            0 <= i < xs.len() && kernels::max_tree(xs, m).at(idx) == (#[trigger] xs[i]).broadcast_at(
                idx,
            ),
        forall|i: int|
            0 <= i < xs.len() ==> ring::centered((#[trigger] xs[i]).broadcast_at(idx), m)
                <= ring::centered(kernels::max_tree(xs, m).at(idx), m),
    decreases xs.len(),
{
    let z = kernels::max_tree(xs, m);
    lemma_tree_covers(xs, m, 0);
    if xs.len() == 1 {
        array::lemma_pick_same(xs[0].shape, idx);
        assert(z.at(idx) == xs[0].broadcast_at(idx));
    } else {
        let half = xs.len() as int / 2;
        let left = xs.take(half);
        let right = xs.skip(half);
        assert forall|i: int| 0 <= i < right.len() implies (#[trigger] right[i]).wf() by {
            assert(right[i] == xs[half + i]);
        }
        assert forall|i: int| 0 <= i < left.len() implies (#[trigger] left[i]).wf() by {
            assert(left[i] == xs[i]);
        }
        let a = kernels::max_tree(left, m);
        let b = kernels::max_tree(right, m);
        array::lemma_pick_in_bounds(a.shape, b.shape, idx);
        let p = array::pick(a.shape, idx);
        let q = array::pick(b.shape, idx);
        law_maximum_broadcast(left, m, p);
        law_maximum_broadcast(right, m, q);
        array::lemma_offset(z.shape, idx);
        assert(z.at(idx) == (kernels::signed_max(m))(a.at(p), b.at(q)));
        assert forall|i: int| 0 <= i < left.len() implies (#[trigger] left[i]).broadcast_at(p)
            == xs[i].broadcast_at(idx) by {
            lemma_tree_covers(left, m, i);
            lemma_pick_through(left[i].shape, a.shape, idx);
        }
        assert forall|i: int| 0 <= i < right.len() implies (#[trigger] right[i]).broadcast_at(q)
            == xs[half + i].broadcast_at(idx) by {
            lemma_tree_covers(right, m, i);
            lemma_pick_through(right[i].shape, b.shape, idx);
        }
        let i = choose|i: int|
            0 <= i < left.len() && a.at(p) == (#[trigger] left[i]).broadcast_at(p);
        let j = choose|j: int|
            0 <= j < right.len() && b.at(q) == (#[trigger] right[j]).broadcast_at(q);
        assert(a.at(p) == xs[i].broadcast_at(idx));
        assert(b.at(q) == xs[half + j].broadcast_at(idx));
        assert forall|i: int| 0 <= i < xs.len() implies ring::centered(
            (#[trigger] xs[i]).broadcast_at(idx),
            m,
        ) <= ring::centered(z.at(idx), m) by {
            if i < half {
                assert(left[i].broadcast_at(p) == xs[i].broadcast_at(idx));
            } else {
                assert(right[i - half].broadcast_at(q) == xs[i].broadcast_at(idx));
            }
        }
    }
}

/// The maximum of one array is that array, and of any arrays of one shape there is one.
pub proof fn law_maximum_exists(xs: Seq<Array>, m: int)
    requires
        xs.len() > 0,
        forall|i: int| 0 <= i < xs.len() ==> (#[trigger] xs[i]).wf(),
        forall|i: int| 0 <= i < xs.len() ==> (#[trigger] xs[i]).shape == xs[0].shape,
    ensures
        kernels::can_max(xs, m),
        xs.len() == 1 ==> kernels::max_tree(xs, m) == xs[0],
{
    lemma_max_tree_shape(xs, m);
}

/// An exponent is the element that its index names less a largest element along the axis: one that
/// is there at one of the first `n` positions, with none larger at the others of them.
pub proof fn law_exponents(x: Array, axis: int, n: nat, m: int, idx: Seq<int>, along: Seq<int>)
    requires
        m >= 2,
        x.wf(),
        0 <= axis < x.shape.len(),
        0 < n <= x.shape[axis],
        array::can_broadcast(x.shape, x.shape.remove(axis)),
        array::in_bounds(array::broadcast_shape(x.shape, x.shape.remove(axis)), idx),
        along.len() == x.shape.len() - 1,
        forall|t: int|
            0 <= t < along.len() ==> #[trigger] along[t] == (if x.shape.remove(axis)[t] == 1 {
                0
            } else {
                idx[idx.len() - along.len() + t]
            }),
    ensures
        differences(x, axis, n, m).shape == array::broadcast_shape(
            x.shape,
            x.shape.remove(axis),
        ),
        differences(x, axis, n, m).elems.len() == array::size(
            array::broadcast_shape(x.shape, x.shape.remove(axis)),
        ),
        exists|i: int|
            {
                &&& 0 <= i < n
                &&& differences(x, axis, n, m).at(idx) == (x.broadcast_at(idx) - x.at(
                    #[trigger] along.insert(axis, i),
                )) % m
                &&& forall|j: int|
                    0 <= j < n ==> ring::centered(x.at(#[trigger] along.insert(axis, j)), m)
                        <= ring::centered(x.at(along.insert(axis, i)), m)
            },
{
    let rest = x.shape.remove(axis);
    let wide = array::broadcast_shape(x.shape, rest);
    let all = slices(x, axis, n);
    let largest = kernels::max_tree(all, m);
    array::lemma_remove_axis_wf(x, axis);
    array::lemma_offset(wide, idx);
    array::lemma_pick_in_bounds(x.shape, rest, idx);
    assert(array::pick(rest, idx) =~= along);
    array::lemma_offset(rest, along);
    let k = array::offset(rest, along);
    assert forall|i: int| 0 <= i < all.len() implies (#[trigger] all[i]).wf() && all[i].shape
        == all[0].shape by {
        assert(x.index_axis(axis, i).wf());
    }
    law_maximum(all, m, k);
    assert forall|i: int| 0 <= i < n implies (#[trigger] all[i]).elems[k] == x.at(
        along.insert(axis, i),
    ) by {
        assert(array::unravel(rest, k) == along);
    }
    let i = choose|i: int| 0 <= i < all.len() && largest.elems[k] == (#[trigger] all[i]).elems[k];
    assert(largest.elems[k] == x.at(along.insert(axis, i)));
    assert forall|j: int| 0 <= j < n implies ring::centered(
        x.at(#[trigger] along.insert(axis, j)),
        m,
    ) <= ring::centered(x.at(along.insert(axis, i)), m) by {
        assert(all[j].elems[k] == x.at(along.insert(axis, j)));
    }
}

/// A summand of the softmax is zero where its exponent, read as a signed number, is below the
/// bound, however far, and the session's exponential elsewhere; so where no exponential is negative,
/// no summand is.
pub proof fn law_summands(exponents: Array, exponentials: Array, bound: int, m: int, k: int)
    requires
        m > 0,
        exponentials.elems.len() == exponents.elems.len(),
        0 <= k < exponents.elems.len(),
    ensures
        ({
            let summands = sanitized(exponents, exponentials, bound, m);
            let e = exponents.elems[k];
            let exponent = if 2 * e < m {
                e
            } else {
                e - m
            };
            let least = if 2 * bound < m {
                bound
            } else {
                bound - m
            };
            &&& summands.shape == exponents.shape
            &&& summands.elems.len() == exponents.elems.len()
            &&& exponent < least ==> summands.elems[k] == 0
            &&& exponent >= least ==> summands.elems[k] == exponentials.elems[k]
            &&& 0 <= 2 * exponentials.elems[k] < m ==> 0 <= 2 * summands.elems[k] < m
        }),
{
}

/// The softmax can be taken along the first axis of any array, over any of its positions from the
/// first on.
pub proof fn law_softmax_along_first_axis(shape: Seq<usize>, n: nat)
    requires
        shape.len() > 0,
        0 < n <= shape[0],
    ensures
        can_softmax(shape, Some(0), n),
        array::broadcast_shape(shape, shape.remove(0)) == shape,
{
    let rest = shape.remove(0);
    assert forall|j: int|
        #![trigger array::dim_from_end(shape, j)]
        #![trigger array::dim_from_end(rest, j)]
        array::dim_from_end(shape, j) == array::dim_from_end(rest, j) || array::dim_from_end(
            rest,
            j,
        ) == 1 by {
        if 0 <= j < rest.len() {
            assert(rest[rest.len() - 1 - j] == shape[shape.len() - 1 - j]);
        }
    }
    assert(array::can_broadcast(shape, rest));
    let wide = array::broadcast_shape(shape, rest);
    assert forall|i: int| 0 <= i < shape.len() implies wide[i] == shape[i] by {
        let j = shape.len() - 1 - i;
        assert(array::dim_from_end(shape, j) == shape[i]);
    }
    assert(wide =~= shape);
}

/// The softmax along an axis.
pub struct SoftmaxOp;

impl SoftmaxOp {
    /// The softmax along an axis of which the first `upmost_index` positions are looked at for the
    /// largest elements. Exponentials of arguments below `min_val`, the fixed-point value of minus
    /// the logarithm of half the integral range, count as zero.
    #[verifier::spinoff_prover]
    pub fn rep_fixed_kernel<S, RepFixedT, ShapeT, RepRingT, RepBitT>(
        sess: &S,
        rep: &ReplicatedPlacement,
        axis: Option<u32>,
        upmost_index: usize,
        min_val: Constant,
        x: RepFixedT,
    ) -> (r: Result<RepFixedT>) where
        RepFixedT: FixedpointTensor + FromRing<RepRingT>,
        ShapeT: TensorShape,
        RepRingT: SharedTensor,
        RepBitT: SharedTensor,
        ReplicatedPlacement: PlacementIndexAxis<S, RepFixedT, RepFixedT>,
        ReplicatedPlacement: PlacementSub<S, RepFixedT, RepFixedT, RepFixedT>,
        ReplicatedPlacement: PlacementMaximum<S, RepFixedT, RepFixedT>,
        ReplicatedPlacement: PlacementFill<S, ShapeT, RepRingT>,
        ReplicatedPlacement: PlacementShape<S, RepFixedT, ShapeT>,
        ReplicatedPlacement: PlacementGreaterThan<S, RepFixedT, RepFixedT, RepBitT>,
        ReplicatedPlacement: PlacementRingInject<S, RepBitT, RepRingT>,
        ReplicatedPlacement: PlacementMux<S, RepRingT, RepFixedT, RepFixedT, RepFixedT>,
        ReplicatedPlacement: PlacementExp<S, RepFixedT, RepFixedT>,
        ReplicatedPlacement: PlacementDiv<S, RepFixedT, RepFixedT, RepFixedT>,
        ReplicatedPlacement: PlacementSum<S, RepFixedT, RepFixedT>,

        requires
            RepRingT::modulus() == RepFixedT::modulus(),
            x.elements().wf(),
            can_softmax(x.elements().shape, axis, upmost_index as nat),
        ensures
            r matches Ok(z) && {
                let a = axis->0;
                let m = RepFixedT::modulus();
                let exponents = differences(x.elements(), a as int, upmost_index as nat, m);
                &&& exists|exponentials: Array|
                    {
                        let summands = sanitized(exponents, exponentials, min_val.val() % m, m);
                        &&& #[trigger] rep.is_exp(sess, x.precision(), exponents, exponentials)
                        &&& summands.shape == exponents.shape
                        &&& summands.elems.len() == exponents.elems.len()
                        &&& forall|k: int|
                            0 <= k < exponents.elems.len() ==> #[trigger] summands.elems[k] == (
                            if ring::centered(exponents.elems[k], m) < ring::centered(
                                min_val.val() % m,
                                m,
                            ) {
                                0
                            } else {
                                exponentials.elems[k]
                            })
                        &&& rep.is_quotient(
                            sess,
                            x.precision(),
                            summands,
                            summands.sum_axis(a as int).map(host_ops::reduce(m)),
                            z.elements(),
                        )
                    }
                &&& z.elements().wf()
                &&& z.elements().shape == array::broadcast_shape(
                    exponents.shape,
                    exponents.shape.remove(a as int),
                )
                &&& z.precision() == x.precision()
            },
    {
        let a = match axis {
            Some(a) => a as usize,
            None => 0,
        };
        let ghost m = RepFixedT::modulus();
        let ghost p = x.precision();
        let mut xs: Vec<RepFixedT> = Vec::new();
        let mut index: usize = 0;
        while index < upmost_index
            invariant
                index <= upmost_index,
                x.elements().wf(),
                a < x.elements().shape.len(),
                upmost_index <= x.elements().shape[a as int],
                p == x.precision(),
                xs@.len() == index,
                forall|i: int|
                    0 <= i < index ==> (#[trigger] xs@[i]).elements() == x.elements().index_axis(
                        a as int,
                        i,
                    ) && xs@[i].precision() == p,
            decreases upmost_index - index,
        {
            let slice: RepFixedT = rep.index_axis(sess, a, index, &x);
            xs.push(slice);
            index = index + 1;
        }
        proof {
            array::lemma_remove_axis_wf(x.elements(), a as int);
            let all = slices(x.elements(), a as int, upmost_index as nat);
            assert(kernels::all_elements(xs@) =~= all);
            assert forall|i: int| 0 <= i < all.len() implies (#[trigger] all[i]).wf()
                && all[i].shape == all[0].shape by {
                assert(x.elements().index_axis(a as int, i).wf());
            }
            lemma_max_tree_shape(all, m);
            assert forall|i: int| 0 <= i < xs@.len() implies (#[trigger] xs@[i]).elements().wf() by {
                assert(x.elements().index_axis(a as int, i).wf());
            }
            RepFixedT::lemma_elements(x);
        }
        let xmax: RepFixedT = rep.maximum(sess, &xs);
        let max_diff: RepFixedT = rep.sub(sess, &x, &xmax);
        let ghost diff = max_diff.elements();
        assert(diff.wf());

        let e_x: RepFixedT = rep.exp(sess, &max_diff);

        let zeros_shape: ShapeT = rep.shape(sess, &e_x);
        let zeros_fill: RepRingT = rep.fill(sess, 0u8.into(), &zeros_shape);
        let integral_precision = x.integral_precision();
        let fractional_precision = x.fractional_precision();
        let zeros_rep: RepFixedT = RepFixedT::from_ring(
            RepFixedTensor { tensor: zeros_fill, integral_precision, fractional_precision },
        );

        let bound_shape: ShapeT = rep.shape(sess, &max_diff);
        let min_val_fill: RepRingT = rep.fill(sess, min_val, &bound_shape);
        let lower_bound: RepFixedT = RepFixedT::from_ring(
            RepFixedTensor { tensor: min_val_fill, integral_precision, fractional_precision },
        );

        let threshold: RepBitT = rep.greater_than(sess, &lower_bound, &max_diff);
        let ghost bits = threshold.elements();
        proof {
            array::lemma_zip_same_shape(diff, lower_bound.elements(), kernels::less_than(m));
            vstd::arithmetic::power2::lemma2_to64();
        }
        let threshold_ring: RepRingT = rep.ring_inject(sess, 0, &threshold);
        proof {
            assert forall|k: int|
                0 <= k < threshold_ring.elements().elems.len() implies #[trigger] threshold_ring.elements().elems[k]
                == bits.elems[k] && (bits.elems[k] == 0 || bits.elems[k] == 1) by {
                vstd::arithmetic::div_mod::lemma_small_mod(bits.elems[k] as nat, m as nat);
            }
        }
        let normalized: RepFixedT = rep.mux(sess, &threshold_ring, &zeros_rep, &e_x);
        proof {
            vstd::arithmetic::div_mod::lemma_small_mod(0, m as nat);
            assert(normalized.elements() =~= sanitized(
                diff,
                e_x.elements(),
                min_val.val() % m,
                m,
            ));
            array::lemma_remove_axis_wf(normalized.elements(), a as int);
        }

        let e_x_sum: RepFixedT = rep.sum(sess, axis, &normalized);
        let softmax: RepFixedT = rep.div(sess, &normalized, &e_x_sum);
        proof {
            let summands = sanitized(diff, e_x.elements(), min_val.val() % m, m);
            assert(fixedpoint::axis_index(axis) == Some(a));
            assert(e_x_sum.elements() == summands.sum_axis(a as int).map(host_ops::reduce(m)));
            assert(diff == differences(x.elements(), a as int, upmost_index as nat, m));
            assert(rep.is_exp(sess, p, diff, e_x.elements()));
            assert(rep.is_quotient(
                sess,
                p,
                summands,
                summands.sum_axis(a as int).map(host_ops::reduce(m)),
                softmax.elements(),
            ));
        }
        Ok(softmax)
    }
}

} // verus!
