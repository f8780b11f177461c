//! What holds of arrays, said of their elements and indices.
use crate::array;
use crate::array::Array;
use crate::host_ops;
use crate::index;
use crate::ring;
use vstd::prelude::*;

verus! {

/// The sum of sequences one after another is the sum of their sums; one number is its own sum.
pub proof fn law_seq_sum(a: Seq<int>, b: Seq<int>, v: int)
    ensures
        array::seq_sum(Seq::<int>::empty()) == 0,
        array::seq_sum(seq![v]) == v,
        array::seq_sum(a + b) == array::seq_sum(a) + array::seq_sum(b),
    decreases b.len(),
{
    assert(seq![v].drop_last() =~= Seq::<int>::empty());
    if b.len() == 0 {
        assert(a + b =~= a);
    } else {
        assert((a + b).drop_last() =~= a + b.drop_last());
        law_seq_sum(a, b.drop_last(), v);
    }
}

/// The size of a shape is the product of its axis lengths: that of shapes one behind the other is
/// the product of theirs.
pub proof fn law_size(a: Seq<usize>, b: Seq<usize>, d: usize)
    ensures
        array::size(Seq::<usize>::empty()) == 1,
        array::size(seq![d]) == d,
        array::size(a + b) == array::size(a) * array::size(b),
    decreases a.len(),
{
    reveal_with_fuel(array::size, 2);
    let one = seq![d];
    assert(one.drop_first() =~= Seq::<usize>::empty());
    assert(array::size(one.drop_first()) == 1);
    assert(array::size(one) == (one[0] * array::size(one.drop_first())) as nat);
    if a.len() == 0 {
        assert(a + b =~= b);
        assert(1 * array::size(b) == array::size(b));
    } else {
        assert((a + b).drop_first() =~= a.drop_first() + b);
        law_size(a.drop_first(), b, d);
        let e = a[0] as int;
        let m = array::size(a.drop_first()) as int;
        let n = array::size(b) as int;
        assert(e * (m * n) == (e * m) * n) by (nonlinear_arith);
        assert(e * m >= 0 && (e * m) * n >= 0) by (nonlinear_arith)
            requires
                e >= 0,
                m >= 0,
                n >= 0,
        ;
    }
}

/// A shape is one that an array may have exactly if the product of its axis lengths, zeros left
/// out, fits in `isize`.
pub proof fn law_valid_shape(a: Seq<usize>, b: Seq<usize>, d: usize)
    ensures
        array::valid_shape(a) <==> array::nonzero_size(a) <= isize::MAX,
        array::nonzero_size(Seq::<usize>::empty()) == 1,
        d != 0 ==> array::nonzero_size(seq![d]) == d,
        array::nonzero_size(seq![0usize]) == 1,
        array::nonzero_size(a + b) == array::nonzero_size(a) * array::nonzero_size(b),
    decreases a.len(),
{
    reveal_with_fuel(array::nonzero_size, 2);
    let one = seq![d];
    assert(one.drop_first() =~= Seq::<usize>::empty());
    assert(array::nonzero_size(one.drop_first()) == 1);
    if d != 0 {
        assert(array::nonzero_size(one) == (one[0] * array::nonzero_size(
            one.drop_first(),
        )) as nat);
    }
    assert(seq![0usize].drop_first() =~= Seq::<usize>::empty());
    if a.len() == 0 {
        assert(a + b =~= b);
        assert(1 * array::nonzero_size(b) == array::nonzero_size(b));
    } else {
        assert((a + b).drop_first() =~= a.drop_first() + b);
        law_valid_shape(a.drop_first(), b, d);
        let e = a[0] as int;
        let m = array::nonzero_size(a.drop_first()) as int;
        let n = array::nonzero_size(b) as int;
        assert(e * (m * n) == (e * m) * n) by (nonlinear_arith);
        assert(e * m >= 0 && (e * m) * n >= 0) by (nonlinear_arith)
            requires
                e >= 0,
                m >= 0,
                n >= 0,
        ;
    }
}

/// An array is well formed exactly if an array may have its shape and it has as many elements as
/// the shape says.
pub proof fn law_wf(a: Array)
    ensures
        a.wf() <==> array::nonzero_size(a.shape) <= isize::MAX && a.elems.len() == array::size(
            a.shape,
        ),
{
}

/// An index names an element exactly if it has a coordinate for each axis, within its length.
pub proof fn law_in_bounds(shape: Seq<usize>, idx: Seq<int>)
    ensures
        array::in_bounds(shape, idx) <==> idx.len() == shape.len() && forall|i: int|
            0 <= i < shape.len() ==> 0 <= #[trigger] idx[i] < shape[i],
{
}

/// Positions are row-major: the coordinates of the last axes count the elements of one block, and
/// those of the axes before them count the blocks.
pub proof fn law_offset(a: Seq<usize>, b: Seq<usize>, i: Seq<int>, j: Seq<int>, d: usize, c: int)
    requires
        i.len() == a.len(),
        j.len() == b.len(),
    ensures
        array::offset(seq![d], seq![c]) == c,
        array::offset(a + b, i + j) == array::offset(a, i) * array::size(b) + array::offset(b, j),
    decreases a.len(),
{
    reveal_with_fuel(array::offset, 2);
    law_size(a, b, d);
    assert(seq![d].drop_first() =~= Seq::<usize>::empty());
    if a.len() == 0 {
        assert(a + b =~= b);
        assert(i + j =~= j);
    } else {
        assert((a + b).drop_first() =~= a.drop_first() + b);
        assert((i + j).drop_first() =~= i.drop_first() + j);
        law_offset(a.drop_first(), b, i.drop_first(), j, d, c);
        law_size(a.drop_first(), b, d);
        let e = i[0];
        let m = array::size(a.drop_first()) as int;
        let n = array::size(b) as int;
        let o = array::offset(a.drop_first(), i.drop_first());
        assert(e * (m * n) + o * n == (e * m + o) * n) by (nonlinear_arith);
    }
}

/// The element at an index is that at its row-major position, and each position has one index.
pub proof fn law_at(a: Array, idx: Seq<int>, k: int)
    ensures
        a.at(idx) == a.elems[array::offset(a.shape, idx)],
        0 <= k < array::size(a.shape) ==> array::in_bounds(a.shape, array::unravel(a.shape, k))
            && array::offset(a.shape, array::unravel(a.shape, k)) == k,
        array::in_bounds(a.shape, idx) ==> 0 <= array::offset(a.shape, idx) < array::size(a.shape)
            && array::unravel(a.shape, array::offset(a.shape, idx)) == idx,
{
    if 0 <= k < array::size(a.shape) {
        array::lemma_unravel(a.shape, k);
    }
    if array::in_bounds(a.shape, idx) {
        array::lemma_offset(a.shape, idx);
    }
}

/// Two shapes broadcast together exactly if, aligned at their last axes, each pair of lengths
/// agrees or has a 1 in it; the common shape has at each axis the length that is not 1, and where
/// one of the shapes has no axis left, that of the other.
pub proof fn law_broadcast_shape(s: Seq<usize>, t: Seq<usize>)
    requires
        s.len() >= t.len(),
    ensures
        array::can_broadcast(s, t) <==> forall|i: int|
            0 <= i < t.len() ==> s[s.len() - t.len() + i] == #[trigger] t[i] || s[s.len() - t.len()
                + i] == 1 || t[i] == 1,
        array::can_broadcast(s, t) == array::can_broadcast(t, s),
        array::broadcast_shape(s, t).len() == s.len(),
        forall|i: int|
            0 <= i < s.len() - t.len() ==> #[trigger] array::broadcast_shape(s, t)[i] == s[i],
        forall|i: int|
            s.len() - t.len() <= i < s.len() ==> #[trigger] array::broadcast_shape(s, t)[i] == (
            if s[i] == 1 {
                t[i - (s.len() - t.len())]
            } else {
                s[i]
            }),
        array::can_broadcast(s, t) ==> array::broadcast_shape(t, s) == array::broadcast_shape(s, t),
{
    let d = s.len() - t.len();
    if array::can_broadcast(s, t) {
        assert forall|i: int| 0 <= i < t.len() implies s[d + i] == #[trigger] t[i] || s[d + i] == 1
            || t[i] == 1 by {
            let j = t.len() - 1 - i;
            assert(array::dim_from_end(t, j) == t[i]);
            assert(array::dim_from_end(s, j) == s[d + i]);
        }
        let p = array::broadcast_shape(s, t);
        let q = array::broadcast_shape(t, s);
        assert forall|i: int| 0 <= i < s.len() implies p[i] == q[i] by {
            let j = s.len() - 1 - i;
            assert(array::dim_from_end(s, j) == s[i]);
        }
        assert(p =~= q);
    }
    if forall|i: int|
        0 <= i < t.len() ==> s[d + i] == #[trigger] t[i] || s[d + i] == 1 || t[i] == 1 {
        assert forall|j: int|
            #![trigger array::dim_from_end(s, j)]
            #![trigger array::dim_from_end(t, j)]
            array::dim_from_end(s, j) == array::dim_from_end(t, j) || array::dim_from_end(s, j)
                == 1 || array::dim_from_end(t, j) == 1 by {
            if 0 <= j < t.len() {
                let i = t.len() - 1 - j;
                assert(s[d + i] == t[i] || s[d + i] == 1 || t[i] == 1);
            }
        }
    }
    assert(array::can_broadcast(s, t) == array::can_broadcast(t, s)) by {
        if array::can_broadcast(s, t) {
            assert forall|j: int|
                #![trigger array::dim_from_end(s, j)]
                #![trigger array::dim_from_end(t, j)]
                array::dim_from_end(t, j) == array::dim_from_end(s, j) || array::dim_from_end(t, j)
                    == 1 || array::dim_from_end(s, j) == 1 by {
            }
        }
        if array::can_broadcast(t, s) {
            assert forall|j: int|
                #![trigger array::dim_from_end(s, j)]
                #![trigger array::dim_from_end(t, j)]
                array::dim_from_end(s, j) == array::dim_from_end(t, j) || array::dim_from_end(s, j)
                    == 1 || array::dim_from_end(t, j) == 1 by {
            }
        }
    }
    assert forall|i: int| d <= i < s.len() implies #[trigger] array::broadcast_shape(s, t)[i] == (
    if s[i] == 1 {
        t[i - d]
    } else {
        s[i]
    }) by {
        let j = s.len() - 1 - i;
        assert(array::dim_from_end(s, j) == s[i]);
        assert(array::dim_from_end(t, j) == t[i - d]);
    }
    assert forall|i: int| 0 <= i < d implies #[trigger] array::broadcast_shape(s, t)[i]
        == s[i] by {
        let j = s.len() - 1 - i;
        assert(array::dim_from_end(s, j) == s[i]);
        assert(array::dim_from_end(t, j) == 1);
    }
}

/// Combining two arrays applies the function, at each index of their common shape, to the elements
/// that the index names in them: by its last coordinates, with 0 along axes of length 1.
pub proof fn law_zip_at(
    a: Array,
    b: Array,
    f: spec_fn(int, int) -> int,
    idx: Seq<int>,
    i: Seq<int>,
    j: Seq<int>,
)
    requires
        array::can_broadcast(a.shape, b.shape),
        array::in_bounds(array::broadcast_shape(a.shape, b.shape), idx),
        i.len() == a.shape.len(),
        j.len() == b.shape.len(),
        forall|t: int|
            0 <= t < i.len() ==> #[trigger] i[t] == (if a.shape[t] == 1 {
                0
            } else {
                idx[idx.len() - i.len() + t]
            }),
        forall|t: int|
            0 <= t < j.len() ==> #[trigger] j[t] == (if b.shape[t] == 1 {
                0
            } else {
                idx[idx.len() - j.len() + t]
            }),
    ensures
        a.zip(b, f).shape == array::broadcast_shape(a.shape, b.shape),
        a.zip(b, f).elems.len() == array::size(array::broadcast_shape(a.shape, b.shape)),
        a.broadcast_at(idx) == a.elems[array::offset(a.shape, i)],
        b.broadcast_at(idx) == b.elems[array::offset(b.shape, j)],
        a.zip(b, f).elems[array::offset(array::broadcast_shape(a.shape, b.shape), idx)] == f(
            a.elems[array::offset(a.shape, i)],
            b.elems[array::offset(b.shape, j)],
        ),
        array::in_bounds(a.shape, i),
        array::in_bounds(b.shape, j),
{
    array::lemma_offset(array::broadcast_shape(a.shape, b.shape), idx);
    array::lemma_pick_in_bounds(a.shape, b.shape, idx);
    assert(array::pick(a.shape, idx) =~= i);
    assert(array::pick(b.shape, idx) =~= j);
}

/// Arrays of one shape combine position by position.
pub proof fn law_zip_same_shape(a: Array, b: Array, f: spec_fn(int, int) -> int, k: int)
    requires
        a.wf(),
        b.wf(),
        a.shape == b.shape,
        0 <= k < a.elems.len(),
    ensures
        a.zip(b, f).shape == a.shape,
        a.zip(b, f).elems.len() == a.elems.len(),
        a.zip(b, f).elems[k] == f(a.elems[k], b.elems[k]),
{
    array::lemma_zip_same_shape(a, b, f);
}

/// Mapping changes each element and nothing else, and a filled array holds its value throughout.
pub proof fn law_map_and_fill(a: Array, f: spec_fn(int) -> int, v: int, k: int)
    ensures
        a.map(f).shape == a.shape,
        a.map(f).elems.len() == a.elems.len(),
        0 <= k < a.elems.len() ==> a.map(f).elems[k] == f(a.elems[k]),
        Array::fill(a.shape, v).shape == a.shape,
        Array::fill(a.shape, v).elems.len() == array::size(a.shape),
        0 <= k < array::size(a.shape) ==> Array::fill(a.shape, v).elems[k] == v,
{
}

/// The sums along an axis leave the axis out, and each is the sum of the elements whose index
/// differs from its own by a coordinate for the axis.
pub proof fn law_sum_axis_at(a: Array, axis: usize, idx: Seq<int>)
    requires
        axis < a.shape.len(),
        array::in_bounds(a.shape.remove(axis as int), idx),
    ensures
        a.sum(Some(axis)) == a.sum_axis(axis as int),
        a.sum_axis(axis as int).shape == a.shape.remove(axis as int),
        a.sum_axis(axis as int).elems.len() == array::size(a.shape.remove(axis as int)),
        a.sum_axis(axis as int).elems[array::offset(a.shape.remove(axis as int), idx)]
            == array::seq_sum(
            Seq::new(
                a.shape[axis as int] as nat,
                |i: int| a.elems[array::offset(a.shape, idx.insert(axis as int, i))],
            ),
        ),
{
    array::lemma_offset(a.shape.remove(axis as int), idx);
    assert(a.lane(axis as int, idx) =~= Seq::new(
        a.shape[axis as int] as nat,
        |i: int| a.elems[array::offset(a.shape, idx.insert(axis as int, i))],
    ));
}

/// Without an axis there is one sum, that of all elements.
pub proof fn law_sum_all(a: Array)
    ensures
        a.sum(None).shape == Seq::<usize>::empty(),
        a.sum(None).elems == seq![array::seq_sum(a.elems)],
{
}

/// A subarray leaves an axis out, and its elements are those with a fixed coordinate for the axis.
pub proof fn law_index_axis_at(a: Array, axis: int, index: int, idx: Seq<int>)
    requires
        0 <= axis < a.shape.len(),
        array::in_bounds(a.shape.remove(axis), idx),
    ensures
        a.index_axis(axis, index).shape == a.shape.remove(axis),
        a.index_axis(axis, index).elems.len() == array::size(a.shape.remove(axis)),
        a.index_axis(axis, index).elems[array::offset(a.shape.remove(axis), idx)]
            == a.elems[array::offset(a.shape, idx.insert(axis, index))],
{
    array::lemma_offset(a.shape.remove(axis), idx);
}

/// Sums along an axis that is not empty can be taken, and arrays of one shape can be combined, as
/// can an array with any that broadcasts to its shape. Other arrays that broadcast together can be
/// combined if what comes of it fits in memory.
pub proof fn law_combinable(s: Seq<usize>, t: Seq<usize>, axis: usize)
    ensures
        axis < s.len() && s[axis as int] > 0 ==> host_ops::can_sum(s, axis as int),
        array::size(s.remove(axis as int)) * 16 <= isize::MAX ==> host_ops::can_sum(s, axis as int),
        axis < s.len() && host_ops::can_sum(s, axis as int) <==> ring::can_sum(s, Some(axis)),
        ring::can_sum(s, None),
        array::can_broadcast(s, t) && array::valid_shape(array::broadcast_shape(s, t))
            && array::size(array::broadcast_shape(s, t)) * 16 <= isize::MAX ==> host_ops::can_zip(
            s,
            t,
        ),
        host_ops::can_zip(s, s),
        array::can_broadcast(s, t) && array::broadcast_shape(s, t) == s ==> host_ops::can_zip(s, t),
        host_ops::can_zip(s, t) ==> array::can_broadcast(s, t),
{
    array::lemma_broadcast_same(s);
}

/// What arithmetic on words leaves: the remainder of the sum, difference or product, between zero
/// and the modulus.
pub proof fn law_word_arithmetic(x: int, y: int, m: int)
    requires
        m > 0,
    ensures
        0 <= (host_ops::reduce(m))(x) < m,
        (x - (host_ops::reduce(m))(x)) % m == 0,
        0 <= (host_ops::add_mod(m))(x, y) < m,
        (x + y - (host_ops::add_mod(m))(x, y)) % m == 0,
        0 <= (host_ops::sub_mod(m))(x, y) < m,
        (x - y - (host_ops::sub_mod(m))(x, y)) % m == 0,
        0 <= (host_ops::mul_mod(m))(x, y) < m,
        (x * y - (host_ops::mul_mod(m))(x, y)) % m == 0,
{
    lemma_remainder(x, m);
    lemma_remainder(x + y, m);
    lemma_remainder(x - y, m);
    lemma_remainder(x * y, m);
}

proof fn lemma_remainder(n: int, m: int)
    requires
        m > 0,
    ensures
        0 <= n % m < m,
        (n - n % m) % m == 0,
{
    vstd::arithmetic::div_mod::lemma_fundamental_div_mod(n, m);
    vstd::arithmetic::div_mod::lemma_mod_multiples_basic(n / m, m);
    vstd::arithmetic::div_mod::lemma_mod_division_less_than_divisor(n, m);
    assert(m * (n / m) == (n / m) * m) by (nonlinear_arith);
}

/// The arrays of words that are summed and multiplied hold the words as numbers, modulo 2^64 and
/// 2^128.
pub proof fn law_word_arrays(shape: Seq<usize>, a: Seq<u64>, b: Seq<u128>, k: int)
    ensures
        host_ops::modulus_64() == u64::MAX + 1,
        host_ops::modulus_128() == u128::MAX + 1,
        host_ops::array_64(shape, a).shape == shape,
        host_ops::array_64(shape, a).elems.len() == a.len(),
        0 <= k < a.len() ==> host_ops::array_64(shape, a).elems[k] == a[k],
        host_ops::array_128(shape, b).shape == shape,
        host_ops::array_128(shape, b).elems.len() == b.len(),
        0 <= k < b.len() ==> host_ops::array_128(shape, b).elems[k] == b[k],
{
}

/// Indices of words are indices of the same numbers.
pub proof fn law_index_numbers(idx: Seq<usize>, i: int)
    ensures
        index::ints(idx).len() == idx.len(),
        0 <= i < idx.len() ==> index::ints(idx)[i] == idx[i],
{
}

} // verus!
