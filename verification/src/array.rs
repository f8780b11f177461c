//! The mathematical model of an n-dimensional array, and the index arithmetic behind it.
//!
//! An array is a shape together with its elements in row-major order. The model is what the
//! contracts of the tensor types speak of.
use vstd::prelude::*;

verus! {

/// An n-dimensional array of integers: the length of each axis, and the elements in row-major
/// order.
#[verifier::ext_equal]
pub struct Array {
    pub shape: Seq<usize>,
    pub elems: Seq<int>,
}

/// How many elements an array of this shape has.
pub open spec fn size(shape: Seq<usize>) -> nat
    decreases shape.len(),
{
    if shape.len() == 0 {
        1
    } else {
        (shape[0] * size(shape.drop_first())) as nat
    }
}

/// The product of the axis lengths that are not zero.
pub open spec fn nonzero_size(shape: Seq<usize>) -> nat
    decreases shape.len(),
{
    if shape.len() == 0 {
        1
    } else if shape[0] == 0 {
        nonzero_size(shape.drop_first())
    } else {
        (shape[0] * nonzero_size(shape.drop_first())) as nat
    }
}

/// Whether an array may have this shape: the product of the nonzero axis lengths fits in `isize`.
pub open spec fn valid_shape(shape: Seq<usize>) -> bool {
    nonzero_size(shape) <= isize::MAX
}

/// Whether `idx` names an element of an array of this shape.
pub open spec fn in_bounds(shape: Seq<usize>, idx: Seq<int>) -> bool {
    &&& idx.len() == shape.len()
    &&& forall|i: int| 0 <= i < shape.len() ==> 0 <= #[trigger] idx[i] < shape[i]
}

/// The row-major position of the element at `idx`.
pub open spec fn offset(shape: Seq<usize>, idx: Seq<int>) -> int
    decreases shape.len(),
{
    if shape.len() == 0 {
        0
    } else {
        idx[0] * size(shape.drop_first()) + offset(shape.drop_first(), idx.drop_first())
    }
}

/// The index of the element at the row-major position `k`.
pub open spec fn unravel(shape: Seq<usize>, k: int) -> Seq<int>
    decreases shape.len(),
{
    if shape.len() == 0 {
        Seq::empty()
    } else {
        let rest = shape.drop_first();
        seq![k / (size(rest) as int)] + unravel(rest, k % (size(rest) as int))
    }
}

/// The sum of a sequence of integers.
pub open spec fn seq_sum(s: Seq<int>) -> int
    decreases s.len(),
{
    if s.len() == 0 {
        0
    } else {
        seq_sum(s.drop_last()) + s.last()
    }
}

/// The `j`-th axis length counted from the last axis; shapes extend to the left with ones.
pub open spec fn dim_from_end(shape: Seq<usize>, j: int) -> usize {
    if 0 <= j < shape.len() {
        shape[shape.len() - 1 - j]
    } else {
        1
    }
}

/// Whether two shapes broadcast together: aligned at the last axis, the lengths agree or one of
/// them is 1.
pub open spec fn can_broadcast(s: Seq<usize>, t: Seq<usize>) -> bool {
    forall|j: int|
        #![trigger dim_from_end(s, j)]
        #![trigger dim_from_end(t, j)]
        dim_from_end(s, j) == dim_from_end(t, j) || dim_from_end(s, j) == 1 || dim_from_end(t, j)
            == 1
}

pub open spec fn max_rank(s: Seq<usize>, t: Seq<usize>) -> nat {
    if s.len() >= t.len() {
        s.len()
    } else {
        t.len()
    }
}

/// The shape that two shapes broadcast to.
pub open spec fn broadcast_shape(s: Seq<usize>, t: Seq<usize>) -> Seq<usize> {
    Seq::new(
        max_rank(s, t),
        |i: int|
            {
                let j = max_rank(s, t) - 1 - i;
                if dim_from_end(s, j) == 1 {
                    dim_from_end(t, j)
                } else {
                    dim_from_end(s, j)
                }
            },
    )
}

/// The index that an operand of the given shape is read at, for an index into the broadcast
/// result: the last coordinates, with 0 along the axes of length 1.
pub open spec fn pick(shape: Seq<usize>, idx: Seq<int>) -> Seq<int> {
    Seq::new(
        shape.len(),
        |i: int|
            if shape[i] == 1 {
                0
            } else {
                idx[idx.len() - shape.len() + i]
            },
    )
}

impl Array {
    /// The shape is one that an array may have, and there are as many elements as it says.
    pub open spec fn wf(self) -> bool {
        &&& valid_shape(self.shape)
        &&& self.elems.len() == size(self.shape)
    }

    /// The element at an index.
    pub open spec fn at(self, idx: Seq<int>) -> int {
        self.elems[offset(self.shape, idx)]
    }

    /// The element that a broadcast operation reads for the result's element at `idx`.
    pub open spec fn broadcast_at(self, idx: Seq<int>) -> int {
        self.at(pick(self.shape, idx))
    }

    /// The array of the results of `f` on the elements of two arrays, broadcast together.
    pub open spec fn zip(self, other: Array, f: spec_fn(int, int) -> int) -> Array {
        let shape = broadcast_shape(self.shape, other.shape);
        Array {
            shape,
            elems: Seq::new(
                size(shape),
                |k: int|
                    f(
                        self.broadcast_at(unravel(shape, k)),
                        other.broadcast_at(unravel(shape, k)),
                    ),
            ),
        }
    }

    /// The array of the results of `f` on each element.
    pub open spec fn map(self, f: spec_fn(int) -> int) -> Array {
        Array { shape: self.shape, elems: self.elems.map_values(f) }
    }

    /// The array of this shape that holds one value throughout.
    pub open spec fn fill(shape: Seq<usize>, v: int) -> Array {
        Array { shape, elems: Seq::new(size(shape), |k: int| v) }
    }

    /// The zero-dimensional array that holds `v`.
    pub open spec fn scalar(v: int) -> Array {
        Array { shape: Seq::empty(), elems: seq![v] }
    }

    /// The elements that the result's element at `idx` collects along `axis`.
    pub open spec fn lane(self, axis: int, idx: Seq<int>) -> Seq<int> {
        Seq::new(self.shape[axis] as nat, |k: int| self.at(idx.insert(axis, k)))
    }

    /// The sums along one axis.
    pub open spec fn sum_axis(self, axis: int) -> Array {
        let shape = self.shape.remove(axis);
        Array {
            shape,
            elems: Seq::new(size(shape), |k: int| seq_sum(self.lane(axis, unravel(shape, k)))),
        }
    }

    /// The sums along an axis, or of all elements where no axis is given.
    pub open spec fn sum(self, axis: Option<usize>) -> Array {
        match axis {
            Some(a) => self.sum_axis(a as int),
            None => Array::scalar(seq_sum(self.elems)),
        }
    }

    /// The subarray at position `index` of one axis.
    pub open spec fn index_axis(self, axis: int, index: int) -> Array {
        let shape = self.shape.remove(axis);
        Array {
            shape,
            elems: Seq::new(size(shape), |k: int| self.at(unravel(shape, k).insert(axis, index))),
        }
    }
}

pub proof fn lemma_unravel(shape: Seq<usize>, k: int)
    requires
        0 <= k < size(shape),
    ensures
        in_bounds(shape, unravel(shape, k)),
        offset(shape, unravel(shape, k)) == k,
    decreases shape.len(),
{
    if shape.len() > 0 {
        let rest = shape.drop_first();
        let n = size(rest) as int;
        let d = shape[0] as int;
        assert(n > 0) by (nonlinear_arith)
            requires
                0 <= k < d * n,
                n >= 0,
        ;
        assert(0 <= k / n < d) by (nonlinear_arith)
            requires
                0 <= k < d * n,
                n > 0,
        ;
        assert(0 <= k % n < n) by (nonlinear_arith)
            requires
                n > 0,
        ;
        assert((k / n) * n + k % n == k) by (nonlinear_arith)
            requires
                n > 0,
        ;
        lemma_unravel(rest, k % n);
        let u = unravel(shape, k);
        assert(u.drop_first() =~= unravel(rest, k % n));
        assert forall|i: int| 0 <= i < shape.len() implies 0 <= #[trigger] u[i] < shape[i] by {
            if i > 0 {
                assert(u[i] == unravel(rest, k % n)[i - 1]);
                assert(rest[i - 1] == shape[i]);
            }
        }
    }
}

pub proof fn lemma_offset(shape: Seq<usize>, idx: Seq<int>)
    requires
        in_bounds(shape, idx),
    ensures
        0 <= offset(shape, idx) < size(shape),
        unravel(shape, offset(shape, idx)) == idx,
    decreases shape.len(),
{
    if shape.len() > 0 {
        let rest = shape.drop_first();
        let tail = idx.drop_first();
        assert(in_bounds(rest, tail)) by {
            assert forall|i: int| 0 <= i < rest.len() implies 0 <= #[trigger] tail[i]
                < rest[i] by {
                assert(tail[i] == idx[i + 1]);
            }
        }
        lemma_offset(rest, tail);
        let n = size(rest) as int;
        let d = shape[0] as int;
        let i0 = idx[0];
        let t = offset(rest, tail);
        assert(0 <= i0 * n + t < d * n) by (nonlinear_arith)
            requires
                0 <= i0 < d,
                0 <= t < n,
        ;
        assert((i0 * n + t) / n == i0) by (nonlinear_arith)
            requires
                0 <= t < n,
        ;
        assert((i0 * n + t) % n == t) by (nonlinear_arith)
            requires
                0 <= t < n,
        ;
        assert(unravel(shape, offset(shape, idx)) =~= idx);
    } else {
        assert(unravel(shape, 0) =~= idx);
    }
}

pub proof fn lemma_size_positive(shape: Seq<usize>)
    ensures
        nonzero_size(shape) >= 1,
        size(shape) <= nonzero_size(shape),
        size(shape) == 0 || size(shape) == nonzero_size(shape),
    decreases shape.len(),
{
    if shape.len() > 0 {
        let rest = shape.drop_first();
        lemma_size_positive(rest);
        let d = shape[0] as int;
        let n = size(rest) as int;
        let m = nonzero_size(rest) as int;
        let e = if d == 0 {
            1int
        } else {
            d
        };
        assert(e * m >= 1) by (nonlinear_arith)
            requires
                e >= 1,
                m >= 1,
        ;
        assert(d * n <= e * m) by (nonlinear_arith)
            requires
                0 <= d <= e,
                0 <= n <= m,
        ;
        assert(d * n == 0 || d * n == e * m) by (nonlinear_arith)
            requires
                d == 0 || d == e,
                n == 0 || n == m,
        ;
    }
}

/// The operands' axis lengths at one axis of the broadcast result, and what the result takes.
pub proof fn lemma_broadcast_dim(s: Seq<usize>, t: Seq<usize>, j: int)
    requires
        can_broadcast(s, t),
    ensures
        dim_from_end(broadcast_shape(s, t), j) == (if dim_from_end(s, j) == 1 {
            dim_from_end(t, j)
        } else {
            dim_from_end(s, j)
        }),
{
}

/// The operands of a broadcast are read within their bounds.
pub proof fn lemma_pick_in_bounds(s: Seq<usize>, t: Seq<usize>, idx: Seq<int>)
    requires
        can_broadcast(s, t),
        in_bounds(broadcast_shape(s, t), idx),
    ensures
        in_bounds(s, pick(s, idx)),
        in_bounds(t, pick(t, idx)),
{
    let r = broadcast_shape(s, t);
    assert forall|i: int| 0 <= i < s.len() implies 0 <= #[trigger] pick(s, idx)[i] < s[i] by {
        let j = s.len() - 1 - i;
        assert(dim_from_end(s, j) == s[i]);
        assert(dim_from_end(r, j) == r[r.len() - 1 - j]);
        assert(0 <= idx[r.len() - 1 - j] < r[r.len() - 1 - j]);
        lemma_broadcast_dim(s, t, j);
    }
    assert forall|i: int| 0 <= i < t.len() implies 0 <= #[trigger] pick(t, idx)[i] < t[i] by {
        let j = t.len() - 1 - i;
        assert(dim_from_end(t, j) == t[i]);
        assert(dim_from_end(r, j) == r[r.len() - 1 - j]);
        assert(0 <= idx[r.len() - 1 - j] < r[r.len() - 1 - j]);
        lemma_broadcast_dim(s, t, j);
    }
}

/// An array broadcast to its own shape is read at the index itself.
pub proof fn lemma_pick_same(s: Seq<usize>, idx: Seq<int>)
    requires
        in_bounds(s, idx),
    ensures
        pick(s, idx) == idx,
{
    assert(pick(s, idx) =~= idx);
}

/// A shape broadcasts with itself to itself.
pub proof fn lemma_broadcast_same(s: Seq<usize>)
    ensures
        can_broadcast(s, s),
        broadcast_shape(s, s) == s,
{
    assert(broadcast_shape(s, s) =~= s);
}

/// Broadcasting the common shape of two shapes with either of them changes nothing.
pub proof fn lemma_broadcast_absorb(s: Seq<usize>, t: Seq<usize>)
    requires
        can_broadcast(s, t),
    ensures
        can_broadcast(broadcast_shape(s, t), s),
        can_broadcast(broadcast_shape(s, t), t),
        broadcast_shape(broadcast_shape(s, t), s) == broadcast_shape(s, t),
        broadcast_shape(broadcast_shape(s, t), t) == broadcast_shape(s, t),
{
    let r = broadcast_shape(s, t);
    assert forall|j: int|
        #![trigger dim_from_end(r, j)]
        dim_from_end(r, j) == dim_from_end(s, j) || dim_from_end(r, j) == 1 || dim_from_end(s, j)
            == 1 by {
        lemma_broadcast_dim(s, t, j);
    }
    assert forall|j: int|
        #![trigger dim_from_end(r, j)]
        dim_from_end(r, j) == dim_from_end(t, j) || dim_from_end(r, j) == 1 || dim_from_end(t, j)
            == 1 by {
        lemma_broadcast_dim(s, t, j);
    }
    assert(can_broadcast(r, s));
    assert(can_broadcast(r, t));
    assert forall|i: int| 0 <= i < r.len() implies #[trigger] broadcast_shape(r, s)[i] == r[i] by {
        lemma_broadcast_dim(s, t, r.len() - 1 - i);
    }
    assert forall|i: int| 0 <= i < r.len() implies #[trigger] broadcast_shape(r, t)[i] == r[i] by {
        lemma_broadcast_dim(s, t, r.len() - 1 - i);
    }
    assert(broadcast_shape(r, s) =~= r);
    assert(broadcast_shape(r, t) =~= r);
}

/// Arrays of one shape combine position by position.
pub proof fn lemma_zip_same_shape(a: Array, b: Array, f: spec_fn(int, int) -> int)
    requires
        a.wf(),
        b.wf(),
        a.shape == b.shape,
    ensures
        can_broadcast(a.shape, b.shape),
        a.zip(b, f).shape == a.shape,
        a.zip(b, f).elems == Seq::new(a.elems.len(), |k: int| f(a.elems[k], b.elems[k])),
{
    lemma_broadcast_same(a.shape);
    let want = Seq::new(a.elems.len(), |k: int| f(a.elems[k], b.elems[k]));
    assert forall|k: int| 0 <= k < a.elems.len() implies a.zip(b, f).elems[k] == want[k] by {
        lemma_unravel(a.shape, k);
        lemma_pick_same(a.shape, unravel(a.shape, k));
    }
    assert(a.zip(b, f).elems =~= want);
}

/// A zero-dimensional operand broadcasts to every position of the other operand.
pub proof fn lemma_zip_scalar(a: Array, v: int, f: spec_fn(int, int) -> int)
    requires
        a.wf(),
    ensures
        can_broadcast(a.shape, Array::scalar(v).shape),
        a.zip(Array::scalar(v), f) == a.map(|x: int| f(x, v)),
{
    let b = Array::scalar(v);
    assert(broadcast_shape(a.shape, b.shape) =~= a.shape);
    let want = a.map(|x: int| f(x, v));
    assert forall|k: int| 0 <= k < a.elems.len() implies a.zip(b, f).elems[k]
        == want.elems[k] by {
        lemma_unravel(a.shape, k);
        lemma_pick_same(a.shape, unravel(a.shape, k));
    }
    assert(a.zip(b, f) =~= want);
}

pub proof fn lemma_size_remove(shape: Seq<usize>, axis: int)
    requires
        0 <= axis < shape.len(),
    ensures
        size(shape) == shape[axis] * size(shape.remove(axis)),
        nonzero_size(shape.remove(axis)) <= nonzero_size(shape),
    decreases shape.len(),
{
    let rest = shape.drop_first();
    let removed = shape.remove(axis);
    let d = shape[0] as int;
    let e = if d == 0 {
        1int
    } else {
        d
    };
    lemma_size_positive(rest);
    if axis == 0 {
        assert(removed =~= rest);
        let m = nonzero_size(rest) as int;
        assert(m <= e * m) by (nonlinear_arith)
            requires
                e >= 1,
                m >= 1,
        ;
    } else {
        assert(removed.drop_first() =~= rest.remove(axis - 1));
        assert(removed[0] == shape[0]);
        lemma_size_remove(rest, axis - 1);
        let n = size(rest.remove(axis - 1)) as int;
        let c = shape[axis] as int;
        assert(rest[axis - 1] == shape[axis]);
        assert(d * (c * n) == c * (d * n)) by (nonlinear_arith);
        let m1 = nonzero_size(rest.remove(axis - 1)) as int;
        let m2 = nonzero_size(rest) as int;
        assert(e * m1 <= e * m2) by (nonlinear_arith)
            requires
                e >= 1,
                m1 <= m2,
        ;
    }
}

/// Summing and indexing along an axis give arrays of a valid shape.
pub proof fn lemma_remove_axis_wf(a: Array, axis: int)
    requires
        a.wf(),
        0 <= axis < a.shape.len(),
    ensures
        a.sum_axis(axis).wf(),
        forall|i: int| #[trigger] a.index_axis(axis, i).wf(),
{
    lemma_size_remove(a.shape, axis);
}

pub proof fn lemma_nonzero_size_skip(shape: Seq<usize>, i: int)
    requires
        0 <= i <= shape.len(),
    ensures
        nonzero_size(shape.skip(i)) <= nonzero_size(shape),
    decreases i,
{
    if i == 0 {
        assert(shape.skip(0) =~= shape);
    } else {
        lemma_nonzero_size_skip(shape, i - 1);
        let s = shape.skip(i - 1);
        assert(s.drop_first() =~= shape.skip(i));
        lemma_size_positive(shape.skip(i));
        let m = nonzero_size(shape.skip(i)) as int;
        let e = if s[0] == 0 {
            1int
        } else {
            s[0] as int
        };
        assert(m <= e * m) by (nonlinear_arith)
            requires
                e >= 1,
                m >= 1,
        ;
    }
}

/// Whether an array may have this shape.
pub fn shape_is_valid(shape: &Vec<usize>) -> (r: bool)
    ensures
        r == valid_shape(shape@),
{
    let mut product: usize = 1;
    let mut i: usize = shape.len();
    while i > 0
        invariant
            i <= shape@.len(),
            product == nonzero_size(shape@.skip(i as int)),
            product <= isize::MAX,
        decreases i,
    {
        let ghost rest = shape@.skip(i as int);
        i = i - 1;
        proof {
            assert(shape@.skip(i as int).drop_first() =~= rest);
            lemma_nonzero_size_skip(shape@, i as int);
        }
        if shape[i] != 0 {
            match shape[i].checked_mul(product) {
                Some(p) => {
                    if p > isize::MAX as usize {
                        return false;
                    }
                    product = p;
                },
                None => return false,
            }
        }
    }
    assert(shape@.skip(0) =~= shape@);
    true
}

/// The number of elements of an array of this shape.
pub fn shape_size(shape: &Vec<usize>) -> (r: usize)
    requires
        valid_shape(shape@),
    ensures
        r == size(shape@),
{
    let mut product: usize = 1;
    let mut i: usize = shape.len();
    while i > 0
        invariant
            i <= shape@.len(),
            valid_shape(shape@),
            product == size(shape@.skip(i as int)),
        decreases i,
    {
        let ghost rest = shape@.skip(i as int);
        i = i - 1;
        proof {
            let s = shape@.skip(i as int);
            assert(s.drop_first() =~= rest);
            lemma_size_positive(s);
            lemma_nonzero_size_skip(shape@, i as int);
        }
        product = shape[i] * product;
    }
    assert(shape@.skip(0) =~= shape@);
    product
}

pub proof fn lemma_seq_sum_mod(s: Seq<int>, m: int)
    requires
        m > 0,
    ensures
        seq_sum(s.map_values(|x: int| x % m)) % m == seq_sum(s) % m,
    decreases s.len(),
{
    let t = s.map_values(|x: int| x % m);
    if s.len() > 0 {
        lemma_seq_sum_mod(s.drop_last(), m);
        assert(t.drop_last() =~= s.drop_last().map_values(|x: int| x % m));
        vstd::arithmetic::div_mod::lemma_add_mod_noop(
            seq_sum(s.drop_last()),
            s.last(),
            m,
        );
        vstd::arithmetic::div_mod::lemma_add_mod_noop(
            seq_sum(t.drop_last()),
            t.last(),
            m,
        );
        vstd::arithmetic::div_mod::lemma_mod_twice(s.last(), m);
    }
}

/// An index of the array without an axis, and a position along the axis, make an index.
pub proof fn lemma_insert_in_bounds(shape: Seq<usize>, axis: int, idx: Seq<int>, i: int)
    requires
        0 <= axis < shape.len(),
        in_bounds(shape.remove(axis), idx),
        0 <= i < shape[axis],
    ensures
        in_bounds(shape, idx.insert(axis, i)),
{
    let full = idx.insert(axis, i);
    assert forall|j: int| 0 <= j < shape.len() implies 0 <= #[trigger] full[j] < shape[j] by {
        if j < axis {
            assert(shape.remove(axis)[j] == shape[j]);
            assert(0 <= idx[j] < shape[j]);
        } else if j > axis {
            assert(shape.remove(axis)[j - 1] == shape[j]);
            assert(0 <= idx[j - 1] < shape[j]);
        }
    }
}

} // verus!
