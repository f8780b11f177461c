//! Index arithmetic on shapes: positions, indices and the positions that operations read.
use crate::array;
use crate::host_ops;
use vstd::prelude::*;

verus! {

/// A machine index as a mathematical one.
pub open spec fn ints(idx: Seq<usize>) -> Seq<int> {
    idx.map_values(|i: usize| i as int)
}

/// The shape that two shapes broadcast to.
pub fn broadcast_shape(s: &Vec<usize>, t: &Vec<usize>) -> (r: Vec<usize>)
    ensures
        r@ == array::broadcast_shape(s@, t@),
{
    let rank = if s.len() >= t.len() {
        s.len()
    } else {
        t.len()
    };
    let mut r: Vec<usize> = Vec::new();
    let mut i: usize = 0;
    while i < rank
        invariant
            i <= rank,
            rank == array::max_rank(s@, t@),
            r@.len() == i,
            forall|k: int| 0 <= k < i ==> r@[k] == array::broadcast_shape(s@, t@)[k],
        decreases rank - i,
    {
        let j = rank - 1 - i;
        let a = if j < s.len() {
            s[s.len() - 1 - j]
        } else {
            1
        };
        let b = if j < t.len() {
            t[t.len() - 1 - j]
        } else {
            1
        };
        r.push(if a == 1 {
            b
        } else {
            a
        });
        i = i + 1;
    }
    assert(r@ =~= array::broadcast_shape(s@, t@));
    r
}

/// The index at a row-major position.
pub fn unravel(shape: &Vec<usize>, k: usize) -> (r: Vec<usize>)
    requires
        array::valid_shape(shape@),
        k < array::size(shape@),
    ensures
        ints(r@) == array::unravel(shape@, k as int),
{
    let mut r: Vec<usize> = Vec::new();
    let mut rem: usize = k;
    let mut stride: usize = array::shape_size(shape);
    let mut i: usize = 0;
    assert(shape@.skip(0) =~= shape@);
    assert(ints(r@) + array::unravel(shape@, k as int) =~= array::unravel(shape@, k as int));
    while i < shape.len()
        invariant
            i <= shape@.len(),
            r@.len() == i,
            rem < stride,
            stride == array::size(shape@.skip(i as int)),
            array::unravel(shape@, k as int) == ints(r@) + array::unravel(
                shape@.skip(i as int),
                rem as int,
            ),
        decreases shape@.len() - i,
    {
        let ghost s = shape@.skip(i as int);
        let ghost rest = shape@.skip(i + 1);
        let ghost before = r@;
        let ghost before_rem = rem;
        proof {
            assert(s.drop_first() =~= rest);
            let d = s[0] as int;
            let n = array::size(rest) as int;
            assert(d > 0 && n > 0) by (nonlinear_arith)
                requires
                    0 <= rem < d * n,
                    d >= 0,
                    n >= 0,
            ;
            assert((d * n) / d == n) by (nonlinear_arith)
                requires
                    d > 0,
            ;
        }
        stride = stride / shape[i];
        r.push(rem / stride);
        rem = rem % stride;
        i = i + 1;
        proof {
            assert(ints(r@) + array::unravel(rest, rem as int) =~= ints(before) + array::unravel(
                s,
                before_rem as int,
            ));
        }
    }
    assert(array::unravel(shape@.skip(i as int), rem as int) =~= Seq::<int>::empty());
    assert(ints(r@) + Seq::<int>::empty() =~= ints(r@));
    r
}

/// The row-major position of an index.
pub fn offset(shape: &Vec<usize>, idx: &Vec<usize>) -> (r: usize)
    requires
        array::valid_shape(shape@),
        array::in_bounds(shape@, ints(idx@)),
    ensures
        r == array::offset(shape@, ints(idx@)),
        r < array::size(shape@),
{
    let mut acc: usize = 0;
    let mut stride: usize = 1;
    let mut i: usize = shape.len();
    while i > 0
        invariant
            i <= shape@.len(),
            shape@.len() == idx@.len(),
            array::valid_shape(shape@),
            array::in_bounds(shape@, ints(idx@)),
            stride == array::size(shape@.skip(i as int)),
            acc == array::offset(shape@.skip(i as int), ints(idx@).skip(i as int)),
            acc < stride,
        decreases i,
    {
        let ghost rest = shape@.skip(i as int);
        i = i - 1;
        proof {
            let s = shape@.skip(i as int);
            let x = ints(idx@).skip(i as int);
            assert(s.drop_first() =~= rest);
            assert(x.drop_first() =~= ints(idx@).skip(i + 1));
            array::lemma_size_positive(s);
            array::lemma_nonzero_size_skip(shape@, i as int);
            assert(0 <= ints(idx@)[i as int] < shape@[i as int]);
            let a = idx@[i as int] as int;
            let d = shape@[i as int] as int;
            let n = stride as int;
            assert(a * n + acc < d * n) by (nonlinear_arith)
                requires
                    0 <= a < d,
                    0 <= acc < n,
            ;
            assert(0 <= a * n) by (nonlinear_arith)
                requires
                    0 <= a,
                    0 <= n,
            ;
        }
        acc = idx[i] * stride + acc;
        stride = shape[i] * stride;
    }
    assert(shape@.skip(0) =~= shape@);
    assert(ints(idx@).skip(0) =~= ints(idx@));
    acc
}

/// Whether the positions are those that are read of an operand, for each position of a broadcast
/// result.
pub open spec fn reads_operand(
    positions: Seq<usize>,
    shape: Seq<usize>,
    result_shape: Seq<usize>,
) -> bool {
    &&& positions.len() == array::size(result_shape)
    &&& forall|k: int|
        0 <= k < positions.len() ==> #[trigger] positions[k] == array::offset(
            shape,
            array::pick(shape, array::unravel(result_shape, k)),
        ) && positions[k] < array::size(shape)
}

/// The shape that two shapes broadcast to and, for each position of the result, the positions that
/// are read of the operands.
pub fn zip_positions(s: &Vec<usize>, t: &Vec<usize>) -> (r: (Vec<usize>, Vec<usize>, Vec<usize>))
    requires
        array::valid_shape(s@),
        array::valid_shape(t@),
        host_ops::can_zip(s@, t@),
    ensures
        r.0@ == array::broadcast_shape(s@, t@),
        array::valid_shape(r.0@),
        reads_operand(r.1@, s@, r.0@),
        reads_operand(r.2@, t@, r.0@),
{
    let shape = broadcast_shape(s, t);
    assert forall|idx: Seq<int>| #[trigger] array::in_bounds(shape@, idx) implies array::in_bounds(
        s@,
        array::pick(s@, idx),
    ) && array::in_bounds(t@, array::pick(t@, idx)) by {
        array::lemma_pick_in_bounds(s@, t@, idx);
    }
    let left = operand_positions(s, &shape);
    let right = operand_positions(t, &shape);
    (shape, left, right)
}

/// For each position of a broadcast result, the position that is read of one operand.
fn operand_positions(shape: &Vec<usize>, result_shape: &Vec<usize>) -> (r: Vec<usize>)
    requires
        array::valid_shape(shape@),
        array::valid_shape(result_shape@),
        shape@.len() <= result_shape@.len(),
        forall|idx: Seq<int>| #[trigger]
            array::in_bounds(result_shape@, idx) ==> array::in_bounds(
                shape@,
                array::pick(shape@, idx),
            ),
    ensures
        reads_operand(r@, shape@, result_shape@),
{
    let size = array::shape_size(result_shape);
    let mut r: Vec<usize> = Vec::new();
    let mut k: usize = 0;
    while k < size
        invariant
            k <= size,
            size == array::size(result_shape@),
            shape@.len() <= result_shape@.len(),
            array::valid_shape(shape@),
            array::valid_shape(result_shape@),
            forall|idx: Seq<int>| #[trigger]
                array::in_bounds(result_shape@, idx) ==> array::in_bounds(
                    shape@,
                    array::pick(shape@, idx),
                ),
            r@.len() == k,
            forall|j: int|
                0 <= j < k ==> #[trigger] r@[j] == array::offset(
                    shape@,
                    array::pick(shape@, array::unravel(result_shape@, j)),
                ) && r@[j] < array::size(shape@),
        decreases size - k,
    {
        let idx = unravel(result_shape, k);
        proof {
            array::lemma_unravel(result_shape@, k as int);
        }
        let mut picked: Vec<usize> = Vec::new();
        let mut i: usize = 0;
        while i < shape.len()
            invariant
                i <= shape@.len(),
                shape@.len() <= idx@.len(),
                idx@.len() == result_shape@.len(),
                picked@.len() == i,
                forall|j: int|
                    0 <= j < i ==> #[trigger] picked@[j] == array::pick(shape@, ints(idx@))[j],
            decreases shape@.len() - i,
        {
            picked.push(if shape[i] == 1 {
                0
            } else {
                idx[idx.len() - shape.len() + i]
            });
            i = i + 1;
        }
        assert(ints(picked@) =~= array::pick(shape@, ints(idx@)));
        r.push(offset(shape, &picked));
        k = k + 1;
    }
    r
}

/// For each position of the subarray at `index` of an axis, the position in the whole array.
pub fn axis_positions(shape: &Vec<usize>, axis: usize, index: usize) -> (r: (
    Vec<usize>,
    Vec<usize>,
))
    requires
        array::valid_shape(shape@),
        axis < shape@.len(),
        index < shape@[axis as int],
    ensures
        r.0@ == shape@.remove(axis as int),
        r.1@.len() == array::size(r.0@),
        forall|k: int|
            0 <= k < r.1@.len() ==> #[trigger] r.1@[k] == array::offset(
                shape@,
                array::unravel(r.0@, k).insert(axis as int, index as int),
            ) && r.1@[k] < array::size(shape@),
{
    let mut removed = shape.clone();
    assert(removed@ =~= shape@);
    removed.remove(axis);
    proof {
        array::lemma_size_remove(shape@, axis as int);
    }
    let size = array::shape_size(&removed);
    let mut r: Vec<usize> = Vec::new();
    let mut k: usize = 0;
    while k < size
        invariant
            k <= size,
            size == array::size(removed@),
            removed@ == shape@.remove(axis as int),
            array::valid_shape(shape@),
            array::valid_shape(removed@),
            axis < shape@.len(),
            index < shape@[axis as int],
            r@.len() == k,
            forall|j: int|
                0 <= j < k ==> #[trigger] r@[j] == array::offset(
                    shape@,
                    array::unravel(removed@, j).insert(axis as int, index as int),
                ) && r@[j] < array::size(shape@),
        decreases size - k,
    {
        let mut idx = unravel(&removed, k);
        proof {
            array::lemma_unravel(removed@, k as int);
        }
        let ghost partial = ints(idx@);
        idx.insert(axis, index);
        proof {
            assert(ints(idx@) =~= partial.insert(axis as int, index as int));
            array::lemma_insert_in_bounds(shape@, axis as int, partial, index as int);
        }
        r.push(offset(shape, &idx));
        k = k + 1;
    }
    (removed, r)
}

} // verus!
