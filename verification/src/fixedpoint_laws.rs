//! What holds of encoding, decoding and means taken together.
use crate::array;
use crate::array::Array;
use crate::array_laws;
use crate::error::{Error, Result};
use crate::fixedpoint;
use crate::fixedpoint::{Convert, FixedTensor, Quantize, Real, RealTensor};
use crate::host_ops;
use crate::placement::{HostPlacement, Placed, Placement};
use crate::ratio;
use crate::ratio::Ratio;
use crate::replicated::tensor::AbstractReplicatedRingTensor;
use crate::ring;
use crate::ring::{AbstractRingTensor, Ring128Tensor, Ring64Tensor, RingElement};
use vstd::prelude::*;

verus! {

/// An integer within the signed range comes back from its residue.
pub proof fn law_centered_residue(v: int, m: int)
    requires
        m > 0,
        -m <= 2 * v < m,
    ensures
        ring::centered(v % m, m) == v,
{
    if v >= 0 {
        vstd::arithmetic::div_mod::lemma_small_mod(v as nat, m as nat);
    } else {
        vstd::arithmetic::div_mod::lemma_mod_add_multiples_vanish(v, m);
        vstd::arithmetic::div_mod::lemma_small_mod((v + m) as nat, m as nat);
    }
}

/// Whether one number is the quantized value of another over the scale.
pub open spec fn restores<T: RingElement, F: Quantize<T, T::Signed>>(
    x: F,
    scaling_factor: T,
    y: F,
) -> bool {
    y.dequantized(scaling_factor, x.quantized(scaling_factor))
}

/// The ring loses nothing: decoding what was encoded gives, element by element, the number that
/// stands for the quantized value over the scale.
pub proof fn law_decode_encode<T: RingElement, F: Quantize<T, T::Signed>>(
    x: RealTensor<F>,
    scaling_factor: T,
    encoded: AbstractRingTensor<T>,
    decoded: RealTensor<F>,
)
    requires
        x.wf(),
        AbstractRingTensor::<T>::encodes(x, scaling_factor, encoded),
        AbstractRingTensor::<T>::decodes(encoded, scaling_factor, decoded),
    ensures
        decoded.shape@ == x.shape@,
        decoded.data@.len() == x.data@.len(),
        forall|k: int|
            0 <= k < x.data@.len() ==> #[trigger] restores::<T, F>(
                x.data@[k],
                scaling_factor,
                decoded.data@[k],
            ),
{
    assert forall|k: int| 0 <= k < x.data@.len() implies #[trigger] restores::<T, F>(
        x.data@[k],
        scaling_factor,
        decoded.data@[k],
    ) by {
        let e = encoded.data@[k];
        assert(fixedpoint::encodes_element(x.data@[k], scaling_factor, e));
        assert(fixedpoint::decodes_element(e, scaling_factor, decoded.data@[k]));
        let v = x.data@[k].quantized(scaling_factor);
        let u = choose|u: T::Signed|
            #[trigger] decoded.data@[k].dequantized(scaling_factor, u) && T::signed_val(u)
                == ring::centered(e.val(), T::modulus());
        T::lemma_ring(e);
        T::lemma_signed_range(v);
        law_centered_residue(T::signed_val(v), T::modulus());
        T::lemma_signed_injective(u, v);
    }
}

/// Whether the integer part of a fraction times the scale lies between two bounds.
pub open spec fn fits(q: Ratio, scale: int, least: int, most: int) -> bool {
    q.den > 0 && least <= ratio::truncated(q.num * scale, q.den as int) <= most
}

/// Whether `y` is a fraction over the scale that is less than one part of the scale away from `q`,
/// no larger in magnitude, and equal to `q` where the scale makes `q` whole. Both sides are
/// multiplied by the scale and by the denominator of `q`.
pub open spec fn rounded(q: Ratio, scale: int, y: Ratio) -> bool {
    let n = q.num * scale;
    let t = y.num * q.den;
    &&& y.den == scale
    &&& -q.den < t - n < q.den
    &&& ratio::magnitude(t) <= ratio::magnitude(n)
    &&& n % (q.den as int) == 0 ==> t == n
}

proof fn lemma_truncated(n: int, d: int)
    requires
        d > 0,
    ensures
        ({
            let t = ratio::truncated(n, d) * d;
            &&& -d < t - n < d
            &&& ratio::magnitude(t) <= ratio::magnitude(n)
            &&& n % d == 0 ==> t == n
        }),
{
    let a = ratio::magnitude(n);
    let q = a / d;
    vstd::arithmetic::div_mod::lemma_fundamental_div_mod(a, d);
    vstd::arithmetic::div_mod::lemma_mod_division_less_than_divisor(a, d);
    vstd::arithmetic::div_mod::lemma_div_pos_is_pos(a, d);
    assert(d * q == q * d && (-q) * d == -(q * d)) by (nonlinear_arith);
    assert(q * d >= 0) by (nonlinear_arith)
        requires
            q >= 0,
            d > 0,
    ;
    if n < 0 && n % d == 0 {
        vstd::arithmetic::div_mod::lemma_fundamental_div_mod(n, d);
        let c = n / d;
        assert(a == d * (-c)) by (nonlinear_arith)
            requires
                n == d * c,
                a == -n,
        ;
        vstd::arithmetic::div_mod::lemma_div_multiples_vanish(-c, d);
    }
}

/// Fractions that fit survive encoding and decoding at 64 bits up to less than one part of the
/// scale: each comes back rounded toward zero, and unchanged in value where the scale makes it
/// whole.
pub proof fn law_fractions_round_trip(
    x: RealTensor<Ratio>,
    scaling_factor: u64,
    encoded: Ring64Tensor,
    decoded: RealTensor<Ratio>,
)
    requires
        x.wf(),
        Ring64Tensor::encodes(x, scaling_factor, encoded),
        Ring64Tensor::decodes(encoded, scaling_factor, decoded),
        forall|k: int|
            0 <= k < x.data@.len() ==> fits(
                #[trigger] x.data@[k],
                scaling_factor as int,
                i64::MIN as int,
                i64::MAX as int,
            ),
    ensures
        decoded.shape@ == x.shape@,
        decoded.data@.len() == x.data@.len(),
        forall|k: int|
            0 <= k < x.data@.len() ==> #[trigger] rounded(
                x.data@[k],
                scaling_factor as int,
                decoded.data@[k],
            ),
{
    law_decode_encode::<u64, Ratio>(x, scaling_factor, encoded, decoded);
    assert forall|k: int| 0 <= k < x.data@.len() implies #[trigger] rounded(
        x.data@[k],
        scaling_factor as int,
        decoded.data@[k],
    ) by {
        let q = x.data@[k];
        assert(restores::<u64, Ratio>(q, scaling_factor, decoded.data@[k]));
        assert(fits(q, scaling_factor as int, i64::MIN as int, i64::MAX as int));
        lemma_truncated(q.num * scaling_factor, q.den as int);
    }
}

/// Fractions that fit survive encoding and decoding at 128 bits up to less than one part of the
/// scale: each comes back rounded toward zero, and unchanged in value where the scale makes it
/// whole.
pub proof fn law_fractions_round_trip_128(
    x: RealTensor<Ratio>,
    scaling_factor: u128,
    encoded: Ring128Tensor,
    decoded: RealTensor<Ratio>,
)
    requires
        x.wf(),
        Ring128Tensor::encodes(x, scaling_factor, encoded),
        Ring128Tensor::decodes(encoded, scaling_factor, decoded),
        forall|k: int|
            0 <= k < x.data@.len() ==> fits(
                #[trigger] x.data@[k],
                scaling_factor as int,
                i128::MIN as int,
                i128::MAX as int,
            ),
    ensures
        decoded.shape@ == x.shape@,
        decoded.data@.len() == x.data@.len(),
        forall|k: int|
            0 <= k < x.data@.len() ==> #[trigger] rounded(
                x.data@[k],
                scaling_factor as int,
                decoded.data@[k],
            ),
{
    law_decode_encode::<u128, Ratio>(x, scaling_factor, encoded, decoded);
    assert forall|k: int| 0 <= k < x.data@.len() implies #[trigger] rounded(
        x.data@[k],
        scaling_factor as int,
        decoded.data@[k],
    ) by {
        let q = x.data@[k];
        assert(restores::<u128, Ratio>(q, scaling_factor, decoded.data@[k]));
        assert(fits(q, scaling_factor as int, i128::MIN as int, i128::MAX as int));
        lemma_truncated(q.num * scaling_factor, q.den as int);
    }
}

proof fn lemma_sum_reduced(b: Array, axis: Option<usize>, weight: int, m: int)
    requires
        m > 0,
        b.wf(),
        axis matches Some(a) ==> a < b.shape.len(),
    ensures
        fixedpoint::weighted_sum(b.map(host_ops::reduce(m)), axis, weight, m)
            == fixedpoint::weighted_sum(b, axis, weight, m),
{
    let x = b.map(host_ops::reduce(m));
    let l = fixedpoint::weighted_sum(x, axis, weight, m);
    let r = fixedpoint::weighted_sum(b, axis, weight, m);
    assert forall|k: int| 0 <= k < l.elems.len() implies l.elems[k] == r.elems[k] by {
        let s = x.sum(axis).elems[k];
        let t = b.sum(axis).elems[k];
        match axis {
            Some(a) => {
                let idx = array::unravel(b.shape.remove(a as int), k);
                let lane = b.lane(a as int, idx);
                array::lemma_unravel(b.shape.remove(a as int), k);
                assert forall|i: int| 0 <= i < lane.len() implies x.lane(a as int, idx)[i]
                    == lane[i] % m by {
                    let full = idx.insert(a as int, i);
                    array::lemma_insert_in_bounds(b.shape, a as int, idx, i);
                    array::lemma_offset(b.shape, full);
                }
                assert(x.lane(a as int, idx) =~= lane.map_values(|v: int| v % m));
                array::lemma_seq_sum_mod(lane, m);
            },
            None => {
                assert(x.elems =~= b.elems.map_values(|v: int| v % m));
                array::lemma_seq_sum_mod(b.elems, m);
            },
        }
        vstd::arithmetic::div_mod::lemma_mul_mod_noop_left(s, weight, m);
        vstd::arithmetic::div_mod::lemma_mul_mod_noop_left(t, weight, m);
    }
    assert(l =~= r);
}

/// A weighted sum of ring elements is the weighted sum of the integers that they stand for: where
/// that integer is within the signed range, reading the result as two's complement gives it back.
pub proof fn law_weighted_sum_exact(b: Array, axis: Option<usize>, weight: int, m: int, k: int)
    requires
        m > 0,
        b.wf(),
        axis matches Some(a) ==> a < b.shape.len(),
        0 <= k < b.sum(axis).elems.len(),
        -m <= 2 * (b.sum(axis).elems[k] * weight) < m,
    ensures
        ring::centered(
            fixedpoint::weighted_sum(b.map(host_ops::reduce(m)), axis, weight, m).elems[k],
            m,
        ) == b.sum(axis).elems[k] * weight,
{
    lemma_sum_reduced(b, axis, weight, m);
    law_centered_residue(b.sum(axis).elems[k] * weight, m);
}

/// The sum of the sums of two sequences.
proof fn lemma_seq_sum_add(a: Seq<int>, b: Seq<int>, c: Seq<int>)
    requires
        a.len() == b.len(),
        c.len() == a.len(),
        forall|i: int| 0 <= i < a.len() ==> #[trigger] c[i] == a[i] + b[i],
    ensures
        array::seq_sum(c) == array::seq_sum(a) + array::seq_sum(b),
    decreases a.len(),
{
    if a.len() > 0 {
        lemma_seq_sum_add(a.drop_last(), b.drop_last(), c.drop_last());
    }
}

/// What sums of ring sums come to.
proof fn lemma_seq_sum_add_mod(a: Seq<int>, b: Seq<int>, c: Seq<int>, m: int)
    requires
        m > 0,
        a.len() == b.len(),
        c.len() == a.len(),
        forall|i: int| 0 <= i < a.len() ==> #[trigger] c[i] == (a[i] + b[i]) % m,
    ensures
        array::seq_sum(c) % m == (array::seq_sum(a) + array::seq_sum(b)) % m,
{
    let whole = Seq::new(a.len(), |i: int| a[i] + b[i]);
    lemma_seq_sum_add(a, b, whole);
    array::lemma_seq_sum_mod(whole, m);
    assert(c =~= whole.map_values(|v: int| v % m));
}

proof fn lemma_weighted_add(s: int, t: int, u: int, weight: int, m: int)
    requires
        m > 0,
        u % m == (s + t) % m,
    ensures
        (u * weight) % m == ((s * weight) % m + (t * weight) % m) % m,
{
    vstd::arithmetic::div_mod::lemma_mul_mod_noop_left(u, weight, m);
    vstd::arithmetic::div_mod::lemma_mul_mod_noop_left(s + t, weight, m);
    assert((s + t) * weight == s * weight + t * weight) by (nonlinear_arith);
    vstd::arithmetic::div_mod::lemma_add_mod_noop(s * weight, t * weight, m);
}

/// Weighted sums are additive: with one weight, those of a ring sum are the ring sums of those of
/// the summands.
pub proof fn law_weighted_sum_additive(x: Array, y: Array, axis: Option<usize>, weight: int, m: int)
    requires
        m > 0,
        x.wf(),
        y.wf(),
        x.shape == y.shape,
        axis matches Some(a) ==> a < x.shape.len(),
    ensures
        fixedpoint::weighted_sum(x.zip(y, host_ops::add_mod(m)), axis, weight, m)
            == fixedpoint::weighted_sum(x, axis, weight, m).zip(
            fixedpoint::weighted_sum(y, axis, weight, m),
            host_ops::add_mod(m),
        ),
{
    let z = x.zip(y, host_ops::add_mod(m));
    let p = fixedpoint::weighted_sum(x, axis, weight, m);
    let q = fixedpoint::weighted_sum(y, axis, weight, m);
    let l = fixedpoint::weighted_sum(z, axis, weight, m);
    let r = p.zip(q, host_ops::add_mod(m));
    array::lemma_zip_same_shape(x, y, host_ops::add_mod(m));
    match axis {
        Some(a) => {
            array::lemma_remove_axis_wf(x, a as int);
            array::lemma_remove_axis_wf(y, a as int);
        },
        None => {
            assert(array::valid_shape(Seq::<usize>::empty()));
        },
    }
    assert(p.wf() && q.wf());
    array::lemma_zip_same_shape(p, q, host_ops::add_mod(m));
    assert forall|k: int| 0 <= k < l.elems.len() implies l.elems[k] == r.elems[k] by {
        let s = x.sum(axis).elems[k];
        let t = y.sum(axis).elems[k];
        let u = z.sum(axis).elems[k];
        match axis {
            Some(a) => {
                let rest = x.shape.remove(a as int);
                let idx = array::unravel(rest, k);
                array::lemma_unravel(rest, k);
                let c = z.lane(a as int, idx);
                let xs = x.lane(a as int, idx);
                let ys = y.lane(a as int, idx);
                assert forall|i: int| 0 <= i < xs.len() implies #[trigger] c[i] == (xs[i] + ys[i])
                    % m by {
                    array::lemma_insert_in_bounds(x.shape, a as int, idx, i);
                    array::lemma_offset(x.shape, idx.insert(a as int, i));
                }
                lemma_seq_sum_add_mod(xs, ys, c, m);
            },
            None => {
                lemma_seq_sum_add_mod(x.elems, y.elems, z.elems, m);
            },
        }
        lemma_weighted_add(s, t, u, weight, m);
    }
    assert(l =~= r);
}

/// Means are additive: the mean of a ring sum is the ring sum of the means, exactly.
pub proof fn law_mean_additive<T: RingElement, F: Quantize<T, T::Signed>>(
    x: Array,
    y: Array,
    axis: Option<usize>,
    scaling_factor: T,
)
    requires
        x.wf(),
        y.wf(),
        x.shape == y.shape,
        axis matches Some(a) ==> a < x.shape.len(),
    ensures
        fixedpoint::mean::<T, F>(x.zip(y, host_ops::add_mod(T::modulus())), axis, scaling_factor)
            == fixedpoint::mean::<T, F>(x, axis, scaling_factor).zip(
            fixedpoint::mean::<T, F>(y, axis, scaling_factor),
            host_ops::add_mod(T::modulus()),
        ),
{
    T::lemma_ring(scaling_factor);
    array::lemma_zip_same_shape(x, y, host_ops::add_mod(T::modulus()));
    let weight = fixedpoint::mean_weight::<F>(x.shape, axis).quantized(scaling_factor);
    law_weighted_sum_additive(x, y, axis, T::signed_val(weight), T::modulus());
}

/// The weight of a mean is one number, the reciprocal of how many elements there are along the axis
/// or in all, whatever the elements are: tensors of one shape get the same weight.
pub proof fn law_mean_weight<F: Real>(
    x: Array,
    y: Array,
    axis: Option<usize>,
    r: RealTensor<F>,
    s: RealTensor<F>,
)
    requires
        x.wf(),
        y.wf(),
        x.shape == y.shape,
        axis matches Some(a) ==> a < x.shape.len(),
        fixedpoint::is_mean_weight(x.shape, axis, r),
        fixedpoint::is_mean_weight(y.shape, axis, s),
    ensures
        r.shape@ == Seq::<usize>::empty(),
        s.shape@ == Seq::<usize>::empty(),
        r.data@ == s.data@,
        r.data@ == seq![
            match axis {
                Some(a) => F::reciprocal_of(x.shape[a as int]),
                None => F::reciprocal_of(array::size(x.shape) as usize),
            },
        ],
        axis is None && x.shape.len() == 0 ==> r.data@ == seq![F::reciprocal_of(1)],
{
}

/// With fractions the weight of a mean at 64 bits is the scale over the number of elements, rounded
/// down.
pub proof fn law_fraction_mean(x: Array, axis: Option<usize>, scaling_factor: u64)
    requires
        x.wf(),
        axis matches Some(a) ==> a < x.shape.len(),
        fixedpoint::mean_count(x.shape, axis) > 0,
    ensures
        fixedpoint::mean::<u64, Ratio>(x, axis, scaling_factor) == fixedpoint::weighted_sum(
            x,
            axis,
            ratio::saturated(
                scaling_factor as int / (fixedpoint::mean_count(x.shape, axis) as int),
                i64::MIN as int,
                i64::MAX as int,
            ),
            host_ops::modulus_64(),
        ),
{
    array::lemma_size_positive(x.shape);
}

/// With fractions the weight of a mean at 128 bits is the scale over the number of elements, rounded
/// down.
pub proof fn law_fraction_mean_128(x: Array, axis: Option<usize>, scaling_factor: u128)
    requires
        x.wf(),
        axis matches Some(a) ==> a < x.shape.len(),
        fixedpoint::mean_count(x.shape, axis) > 0,
    ensures
        fixedpoint::mean::<u128, Ratio>(x, axis, scaling_factor) == fixedpoint::weighted_sum(
            x,
            axis,
            ratio::saturated(
                scaling_factor as int / (fixedpoint::mean_count(x.shape, axis) as int),
                i128::MIN as int,
                i128::MAX as int,
            ),
            host_ops::modulus_128(),
        ),
{
    array::lemma_size_positive(x.shape);
}

/// The words are those of the machine: as numbers they are themselves, and there are as many as
/// fit.
pub proof fn law_words(a: u64, b: i64, c: u128, d: i128)
    ensures
        <u64 as RingElement>::modulus() == u64::MAX + 1,
        RingElement::val(a) == a,
        <u64 as RingElement>::signed_val(b) == b,
        <u128 as RingElement>::modulus() == u128::MAX + 1,
        RingElement::val(c) == c,
        <u128 as RingElement>::signed_val(d) == d,
{
}

/// A word below half of the modulus stands for itself, any other for itself less the modulus.
pub proof fn law_signed_reading(v: int, m: int)
    ensures
        2 * v < m ==> ring::centered(v, m) == v,
        2 * v >= m ==> ring::centered(v, m) == v - m,
{
}

/// A tensor stands for its shape and the numbers of its words, in their order.
pub proof fn law_tensor_view<T: RingElement>(x: AbstractRingTensor<T>, k: int)
    ensures
        x@.shape == x.shape@,
        x@.elems.len() == x.data@.len(),
        0 <= k < x.data@.len() ==> x@.elems[k] == x.data@[k].val(),
{
}

/// Every tensor whose shape fits its elements can be encoded and decoded.
pub proof fn law_convertible<T: RingElement, F: Quantize<T, T::Signed>>(
    x: RealTensor<F>,
    y: AbstractRingTensor<T>,
)
    ensures
        array::valid_shape(x.shape@) && x.data@.len() == array::size(x.shape@) <==> x.wf(),
        x.wf() ==> <AbstractRingTensor<T> as Convert<RealTensor<F>>>::encodable(x),
        array::valid_shape(y.shape@) && y.data@.len() == array::size(y.shape@)
            ==> <AbstractRingTensor<T> as Convert<RealTensor<F>>>::decodable(y),
{
}

/// An encoding has the shape of the tensor, and each of its words, read as two's complement, is the
/// quantized number at its position, whatever the shape and however many elements there are.
pub proof fn law_encode<T: RingElement, F: Quantize<T, T::Signed>>(
    x: RealTensor<F>,
    scaling_factor: T,
    r: AbstractRingTensor<T>,
    k: int,
)
    requires
        x.wf(),
        AbstractRingTensor::<T>::encodes(x, scaling_factor, r),
        0 <= k < x.data@.len(),
    ensures
        r.shape@ == x.shape@,
        r.data@.len() == x.data@.len(),
        0 <= r.data@[k].val() < T::modulus(),
        2 * r.data@[k].val() < T::modulus() ==> r.data@[k].val() == T::signed_val(
            x.data@[k].quantized(scaling_factor),
        ),
        2 * r.data@[k].val() >= T::modulus() ==> r.data@[k].val() - T::modulus() == T::signed_val(
            x.data@[k].quantized(scaling_factor),
        ),
{
    let e = r.data@[k];
    assert(fixedpoint::encodes_element(x.data@[k], scaling_factor, e));
    T::lemma_ring(e);
    T::lemma_signed_range(x.data@[k].quantized(scaling_factor));
    law_centered_residue(T::signed_val(x.data@[k].quantized(scaling_factor)), T::modulus());
}

/// A decoded tensor has the shape of the encoding, and each of its numbers is the word at its
/// position, read as two's complement, over the scale, on whatever host the encoding is.
pub proof fn law_decode<T: RingElement, F: Quantize<T, T::Signed>>(
    x: AbstractRingTensor<T>,
    scaling_factor: T,
    r: RealTensor<F>,
    k: int,
)
    requires
        x@.wf(),
        AbstractRingTensor::<T>::decodes(x, scaling_factor, r),
        0 <= k < x.data@.len(),
    ensures
        r.shape@ == x.shape@,
        r.data@.len() == x.data@.len(),
        exists|v: T::Signed|
            #[trigger] r.data@[k].dequantized(scaling_factor, v) && T::signed_val(v) == (if 2
                * x.data@[k].val() < T::modulus() {
                x.data@[k].val()
            } else {
                x.data@[k].val() - T::modulus()
            }),
{
    assert(fixedpoint::decodes_element(x.data@[k], scaling_factor, r.data@[k]));
}

/// Tensors of the same shape and words decode alike, wherever they are.
pub proof fn law_decode_ignores_placement<T: RingElement, F: Quantize<T, T::Signed>>(
    x: AbstractRingTensor<T>,
    y: AbstractRingTensor<T>,
    scaling_factor: T,
    r: RealTensor<F>,
)
    requires
        x@ == y@,
    ensures
        AbstractRingTensor::<T>::decodes(x, scaling_factor, r) <==> AbstractRingTensor::<
            T,
        >::decodes(y, scaling_factor, r),
{
    assert(x@.elems.len() == x.data@.len() && y@.elems.len() == y.data@.len());
    assert forall|k: int| 0 <= k < x.data@.len() implies fixedpoint::decodes_element(
        x.data@[k],
        scaling_factor,
        r.data@[k],
    ) == fixedpoint::decodes_element(y.data@[k], scaling_factor, r.data@[k]) by {
        assert(x@.elems[k] == x.data@[k].val());
        assert(y@.elems[k] == y.data@[k].val());
        assert(x.data@[k].val() == y.data@[k].val());
    }
    if AbstractRingTensor::<T>::decodes(x, scaling_factor, r) {
        assert forall|k: int| 0 <= k < y.data@.len() implies #[trigger] fixedpoint::decodes_element(
            y.data@[k],
            scaling_factor,
            r.data@[k],
        ) by {
            assert(fixedpoint::decodes_element(x.data@[k], scaling_factor, r.data@[k]));
        }
    }
    if AbstractRingTensor::<T>::decodes(y, scaling_factor, r) {
        assert forall|k: int| 0 <= k < x.data@.len() implies #[trigger] fixedpoint::decodes_element(
            x.data@[k],
            scaling_factor,
            r.data@[k],
        ) by {
            assert(fixedpoint::decodes_element(y.data@[k], scaling_factor, r.data@[k]));
        }
    }
}

/// Decoding what was encoded and then moved to another host gives each quantized number over the
/// scale.
pub proof fn law_decode_encode_placed<T: RingElement, F: Quantize<T, T::Signed>>(
    x: RealTensor<F>,
    scaling_factor: T,
    encoded: AbstractRingTensor<T>,
    placed: AbstractRingTensor<T>,
    decoded: RealTensor<F>,
    k: int,
)
    requires
        x.wf(),
        AbstractRingTensor::<T>::encodes(x, scaling_factor, encoded),
        placed@ == encoded@,
        AbstractRingTensor::<T>::decodes(placed, scaling_factor, decoded),
        0 <= k < x.data@.len(),
    ensures
        decoded.shape@ == x.shape@,
        decoded.data@.len() == x.data@.len(),
        decoded.data@[k].dequantized(scaling_factor, x.data@[k].quantized(scaling_factor)),
{
    law_decode_ignores_placement(placed, encoded, scaling_factor, decoded);
    law_decode_encode(x, scaling_factor, encoded, decoded);
    assert(restores::<T, F>(x.data@[k], scaling_factor, decoded.data@[k]));
}

/// The sums along an axis times a weight, each modulo `m`.
pub proof fn law_weighted_sum_along(
    x: Array,
    axis: usize,
    weight: int,
    m: int,
    idx: Seq<int>,
)
    requires
        axis < x.shape.len(),
        array::in_bounds(x.shape.remove(axis as int), idx),
    ensures
        fixedpoint::weighted_sum(x, Some(axis), weight, m).shape == x.shape.remove(axis as int),
        fixedpoint::weighted_sum(x, Some(axis), weight, m).elems.len() == array::size(
            x.shape.remove(axis as int),
        ),
        fixedpoint::weighted_sum(x, Some(axis), weight, m).elems[array::offset(
            x.shape.remove(axis as int),
            idx,
        )] == (array::seq_sum(
            Seq::new(
                x.shape[axis as int] as nat,
                |i: int| x.elems[array::offset(x.shape, idx.insert(axis as int, i))],
            ),
        ) * weight) % m,
{
    array_laws::law_sum_axis_at(x, axis, idx);
    array::lemma_offset(x.shape.remove(axis as int), idx);
}

/// The sum of all elements times a weight, modulo `m`.
pub proof fn law_weighted_sum_of_all(x: Array, weight: int, m: int)
    ensures
        fixedpoint::weighted_sum(x, None, weight, m).shape == Seq::<usize>::empty(),
        fixedpoint::weighted_sum(x, None, weight, m).elems == seq![
            (array::seq_sum(x.elems) * weight) % m,
        ],
{
    assert(fixedpoint::weighted_sum(x, None, weight, m).elems =~= seq![
        (array::seq_sum(x.elems) * weight) % m,
    ]);
}

/// The mean along an axis has, for each index without the axis, the sum of the elements along the
/// axis times the quantized reciprocal of the length of that axis.
pub proof fn law_mean_along<T: RingElement, F: Quantize<T, T::Signed>>(
    x: Array,
    axis: usize,
    scaling_factor: T,
    idx: Seq<int>,
)
    requires
        axis < x.shape.len(),
        array::in_bounds(x.shape.remove(axis as int), idx),
    ensures
        fixedpoint::mean::<T, F>(x, Some(axis), scaling_factor).shape == x.shape.remove(
            axis as int,
        ),
        fixedpoint::mean::<T, F>(x, Some(axis), scaling_factor).elems.len() == array::size(
            x.shape.remove(axis as int),
        ),
        fixedpoint::mean::<T, F>(x, Some(axis), scaling_factor).elems[array::offset(
            x.shape.remove(axis as int),
            idx,
        )] == (array::seq_sum(
            Seq::new(
                x.shape[axis as int] as nat,
                |i: int| x.elems[array::offset(x.shape, idx.insert(axis as int, i))],
            ),
        ) * T::signed_val(
            F::reciprocal_of(x.shape[axis as int]).quantized(scaling_factor),
        )) % T::modulus(),
{
    let weight = T::signed_val(F::reciprocal_of(x.shape[axis as int]).quantized(scaling_factor));
    law_weighted_sum_along(x, axis, weight, T::modulus(), idx);
}

/// The mean without an axis is the sum of all elements times the quantized reciprocal of how many
/// there are.
pub proof fn law_mean_of_all<T: RingElement, F: Quantize<T, T::Signed>>(
    x: Array,
    scaling_factor: T,
)
    requires
        x.wf(),
    ensures
        fixedpoint::mean::<T, F>(x, None, scaling_factor).shape == Seq::<usize>::empty(),
        fixedpoint::mean::<T, F>(x, None, scaling_factor).elems == seq![
            (array::seq_sum(x.elems) * T::signed_val(
                F::reciprocal_of(x.elems.len() as usize).quantized(scaling_factor),
            )) % T::modulus(),
        ],
{
    let weight = T::signed_val(F::reciprocal_of(x.elems.len() as usize).quantized(scaling_factor));
    law_weighted_sum_of_all(x, weight, T::modulus());
}

/// The axis that a kernel is given is the axis that the mean or the sum is taken along.
pub proof fn law_axis_index(a: u32)
    ensures
        fixedpoint::axis_index(Some(a)) == Some(a as usize),
        fixedpoint::axis_index(None) == None::<usize>,
{
}

proof fn lemma_encoded_elements<T: RingElement, F: Quantize<T, T::Signed>>(
    x: RealTensor<F>,
    scaling_factor: T,
    encoded: AbstractRingTensor<T>,
    b: Array,
)
    requires
        x.wf(),
        AbstractRingTensor::<T>::encodes(x, scaling_factor, encoded),
        b.shape == x.shape@,
        b.elems == x.data@.map_values(|q: F| T::signed_val(q.quantized(scaling_factor))),
    ensures
        b.wf(),
        encoded@ == b.map(host_ops::reduce(T::modulus())),
{
    let want = b.map(host_ops::reduce(T::modulus()));
    assert forall|k: int| 0 <= k < encoded@.elems.len() implies encoded@.elems[k]
        == want.elems[k] by {
        assert(fixedpoint::encodes_element(x.data@[k], scaling_factor, encoded.data@[k]));
    }
    assert(encoded@ =~= want);
}

/// Decoding the mean of an encoded tensor along an axis gives the mean of the quantized numbers:
/// their sum times the quantized reciprocal of the axis length, as an integer, where that is within
/// the signed range.
pub proof fn law_mean_of_encoded<T: RingElement, F: Quantize<T, T::Signed>>(
    x: RealTensor<F>,
    scaling_factor: T,
    encoded: AbstractRingTensor<T>,
    axis: usize,
    mean_factor: T,
    mean: AbstractRingTensor<T>,
    decoding_factor: T,
    decoded: RealTensor<F>,
    idx: Seq<int>,
    total: int,
    weight: int,
)
    requires
        x.wf(),
        axis < x.shape@.len(),
        array::in_bounds(x.shape@.remove(axis as int), idx),
        AbstractRingTensor::<T>::encodes(x, scaling_factor, encoded),
        mean@ == fixedpoint::mean::<T, F>(encoded@, Some(axis), mean_factor),
        mean@.wf(),
        AbstractRingTensor::<T>::decodes(mean, decoding_factor, decoded),
        total == array::seq_sum(
            Seq::new(
                x.shape@[axis as int] as nat,
                |i: int|
                    T::signed_val(
                        x.data@[array::offset(x.shape@, idx.insert(axis as int, i))].quantized(
                            scaling_factor,
                        ),
                    ),
            ),
        ),
        weight == T::signed_val(F::reciprocal_of(x.shape@[axis as int]).quantized(mean_factor)),
        -T::modulus() <= 2 * (total * weight) < T::modulus(),
    ensures
        decoded.shape@ == x.shape@.remove(axis as int),
        decoded.data@.len() == array::size(x.shape@.remove(axis as int)),
        exists|v: T::Signed|
            #[trigger] decoded.data@[array::offset(
                x.shape@.remove(axis as int),
                idx,
            )].dequantized(decoding_factor, v) && T::signed_val(v) == total * weight,
{
    let m = T::modulus();
    let b = Array {
        shape: x.shape@,
        elems: x.data@.map_values(|q: F| T::signed_val(q.quantized(scaling_factor))),
    };
    T::lemma_ring(scaling_factor);
    lemma_encoded_elements(x, scaling_factor, encoded, b);
    let rest = x.shape@.remove(axis as int);
    let k = array::offset(rest, idx);
    array::lemma_offset(rest, idx);
    array_laws::law_sum_axis_at(b, axis, idx);
    let lane = Seq::new(
        b.shape[axis as int] as nat,
        |i: int| b.elems[array::offset(b.shape, idx.insert(axis as int, i))],
    );
    let terms = Seq::new(
        x.shape@[axis as int] as nat,
        |i: int|
            T::signed_val(
                x.data@[array::offset(x.shape@, idx.insert(axis as int, i))].quantized(
                    scaling_factor,
                ),
            ),
    );
    assert forall|i: int| 0 <= i < lane.len() implies lane[i] == terms[i] by {
        array::lemma_insert_in_bounds(x.shape@, axis as int, idx, i);
        array::lemma_offset(x.shape@, idx.insert(axis as int, i));
    }
    assert(lane =~= terms);
    assert(b.sum(Some(axis)).elems[k] == total);
    law_weighted_sum_exact(b, Some(axis), weight, m, k);
    assert(mean@.elems.len() == mean.data@.len());
    law_decode(mean, decoding_factor, decoded, k);
    assert(mean@.elems[k] == mean.data@[k].val());
}

/// Decoding the mean of all elements of an encoded tensor gives the mean of the quantized numbers,
/// where it is within the signed range.
pub proof fn law_mean_of_all_encoded<T: RingElement, F: Quantize<T, T::Signed>>(
    x: RealTensor<F>,
    scaling_factor: T,
    encoded: AbstractRingTensor<T>,
    mean_factor: T,
    mean: AbstractRingTensor<T>,
    decoding_factor: T,
    decoded: RealTensor<F>,
    total: int,
    weight: int,
)
    requires
        x.wf(),
        AbstractRingTensor::<T>::encodes(x, scaling_factor, encoded),
        mean@ == fixedpoint::mean::<T, F>(encoded@, None, mean_factor),
        mean@.wf(),
        AbstractRingTensor::<T>::decodes(mean, decoding_factor, decoded),
        total == array::seq_sum(
            x.data@.map_values(|q: F| T::signed_val(q.quantized(scaling_factor))),
        ),
        weight == T::signed_val(F::reciprocal_of(x.data@.len() as usize).quantized(mean_factor)),
        -T::modulus() <= 2 * (total * weight) < T::modulus(),
    ensures
        decoded.shape@ == Seq::<usize>::empty(),
        decoded.data@.len() == 1,
        exists|v: T::Signed|
            #[trigger] decoded.data@[0].dequantized(decoding_factor, v) && T::signed_val(v) == total
                * weight,
{
    let m = T::modulus();
    let b = Array {
        shape: x.shape@,
        elems: x.data@.map_values(|q: F| T::signed_val(q.quantized(scaling_factor))),
    };
    T::lemma_ring(scaling_factor);
    lemma_encoded_elements(x, scaling_factor, encoded, b);
    law_weighted_sum_exact(b, None, weight, m, 0);
    assert(mean@.elems.len() == mean.data@.len());
    law_decode(mean, decoding_factor, decoded, 0);
    assert(mean@.elems[0] == mean.data@[0].val());
}

proof fn lemma_saturated(n: int, d: int, least: int, most: int)
    requires
        d > 0,
        least < 0 < most,
    ensures
        ({
            let v = ratio::saturated(ratio::truncated(n, d), least, most);
            &&& least <= v <= most
            &&& n >= 0 ==> v >= 0 && v * d <= n && (v == most || n < (v + 1) * d)
            &&& n <= 0 ==> v <= 0 && v * d >= n && (v == least || (v - 1) * d < n)
        }),
{
    let t = ratio::truncated(n, d);
    let v = ratio::saturated(t, least, most);
    lemma_truncated(n, d);
    vstd::arithmetic::div_mod::lemma_div_pos_is_pos(ratio::magnitude(n), d);
    assert((v + 1) * d == v * d + d && (v - 1) * d == v * d - d) by (nonlinear_arith);
    assert(n >= 0 ==> v * d <= t * d) by (nonlinear_arith)
        requires
            d > 0,
            n >= 0 ==> v <= t,
    ;
    assert(n <= 0 ==> v * d >= t * d) by (nonlinear_arith)
        requires
            d > 0,
            n <= 0 ==> v >= t,
    ;
    assert(t * d >= 0 || t < 0) by (nonlinear_arith)
        requires
            d > 0,
    ;
    assert(t * d <= 0 || t > 0) by (nonlinear_arith)
        requires
            d > 0,
    ;
}

/// The reciprocal of a number is the fraction of one over it.
pub proof fn law_fraction_reciprocal(n: usize)
    ensures
        Ratio::reciprocal_of(n).num == 1,
        Ratio::reciprocal_of(n).den == n,
{
}

/// With fractions a mean at 64 bits is exact where the axis length divides the scale and nothing
/// leaves the signed range: the axis length times the mean is the sum of the integers along the
/// axis times the scale.
pub proof fn law_fraction_mean_exact(
    b: Array,
    axis: usize,
    scaling_factor: u64,
    idx: Seq<int>,
    total: int,
    element: int,
)
    requires
        b.wf(),
        axis < b.shape.len(),
        array::in_bounds(b.shape.remove(axis as int), idx),
        b.shape[axis as int] > 0,
        scaling_factor as int % (b.shape[axis as int] as int) == 0,
        scaling_factor as int / (b.shape[axis as int] as int) <= i64::MAX,
        total == array::seq_sum(
            Seq::new(
                b.shape[axis as int] as nat,
                |i: int| b.elems[array::offset(b.shape, idx.insert(axis as int, i))],
            ),
        ),
        i64::MIN <= total * (scaling_factor as int / (b.shape[axis as int] as int)) <= i64::MAX,
        element == fixedpoint::mean::<u64, Ratio>(
            b.map(host_ops::reduce(u64::MAX + 1)),
            Some(axis),
            scaling_factor,
        ).elems[array::offset(b.shape.remove(axis as int), idx)],
    ensures
        0 <= element <= u64::MAX,
        (if element <= i64::MAX {
            element
        } else {
            element - (u64::MAX + 1)
        }) * b.shape[axis as int] == total * scaling_factor,
{
    let n = b.shape[axis as int] as int;
    let m = u64::MAX + 1;
    let w = scaling_factor as int / n;
    let k = array::offset(b.shape.remove(axis as int), idx);
    array::lemma_offset(b.shape.remove(axis as int), idx);
    array_laws::law_sum_axis_at(b, axis, idx);
    vstd::arithmetic::div_mod::lemma_fundamental_div_mod(scaling_factor as int, n);
    vstd::arithmetic::div_mod::lemma_div_pos_is_pos(scaling_factor as int, n);
    let x = b.map(host_ops::reduce(m));
    assert(x.wf());
    law_fraction_mean(x, Some(axis), scaling_factor);
    law_weighted_sum_exact(b, Some(axis), w, m, k);
    lemma_sum_reduced(b, Some(axis), w, m);
    vstd::arithmetic::div_mod::lemma_mod_division_less_than_divisor(total * w, m);
    assert((total * w) * n == total * (n * w)) by (nonlinear_arith);
}

/// What a fraction has at a 64-bit scale: the largest integer in magnitude, within the signed range,
/// that does not exceed it. A zero denominator gives the end of the range.
pub proof fn law_fraction_quantized(q: Ratio, scale: u64, v: i64, y: Ratio)
    requires
        v == <Ratio as Quantize<u64, i64>>::quantized(q, scale),
    ensures
        q.den > 0 && q.num * scale >= 0 ==> v >= 0 && v * q.den <= q.num * scale && (v
            == i64::MAX || q.num * scale < (v + 1) * q.den),
        q.den > 0 && q.num * scale <= 0 ==> v <= 0 && v * q.den >= q.num * scale && (v
            == i64::MIN || (v - 1) * q.den < q.num * scale),
        q.den == 0 && scale > 0 && q.num > 0 ==> v == i64::MAX,
        q.den == 0 && scale > 0 && q.num < 0 ==> v == i64::MIN,
        q.den == 0 && (scale == 0 || q.num == 0) ==> v == 0,
        <Ratio as Quantize<u64, i64>>::dequantized(y, scale, v) <==> y.num == v && y.den == scale,
{
    if q.den > 0 {
        lemma_saturated(q.num * scale, q.den as int, i64::MIN as int, i64::MAX as int);
    }
}

/// With fractions a mean at 128 bits is exact where the axis length divides the scale and nothing
/// leaves the signed range: the axis length times the mean is the sum of the integers along the
/// axis times the scale.
pub proof fn law_fraction_mean_exact_128(
    b: Array,
    axis: usize,
    scaling_factor: u128,
    idx: Seq<int>,
    total: int,
    element: int,
)
    requires
        b.wf(),
        axis < b.shape.len(),
        array::in_bounds(b.shape.remove(axis as int), idx),
        b.shape[axis as int] > 0,
        scaling_factor as int % (b.shape[axis as int] as int) == 0,
        scaling_factor as int / (b.shape[axis as int] as int) <= i128::MAX,
        total == array::seq_sum(
            Seq::new(
                b.shape[axis as int] as nat,
                |i: int| b.elems[array::offset(b.shape, idx.insert(axis as int, i))],
            ),
        ),
        i128::MIN <= total * (scaling_factor as int / (b.shape[axis as int] as int)) <= i128::MAX,
        element == fixedpoint::mean::<u128, Ratio>(
            b.map(host_ops::reduce(u128::MAX + 1)),
            Some(axis),
            scaling_factor,
        ).elems[array::offset(b.shape.remove(axis as int), idx)],
    ensures
        0 <= element <= u128::MAX,
        (if element <= i128::MAX {
            element
        } else {
            element - (u128::MAX + 1)
        }) * b.shape[axis as int] == total * scaling_factor,
{
    let n = b.shape[axis as int] as int;
    let m = u128::MAX + 1;
    let w = scaling_factor as int / n;
    let k = array::offset(b.shape.remove(axis as int), idx);
    array::lemma_offset(b.shape.remove(axis as int), idx);
    array_laws::law_sum_axis_at(b, axis, idx);
    vstd::arithmetic::div_mod::lemma_fundamental_div_mod(scaling_factor as int, n);
    vstd::arithmetic::div_mod::lemma_div_pos_is_pos(scaling_factor as int, n);
    let x = b.map(host_ops::reduce(m));
    assert(x.wf());
    law_fraction_mean_128(x, Some(axis), scaling_factor);
    law_weighted_sum_exact(b, Some(axis), w, m, k);
    lemma_sum_reduced(b, Some(axis), w, m);
    vstd::arithmetic::div_mod::lemma_mod_division_less_than_divisor(total * w, m);
    assert((total * w) * n == total * (n * w)) by (nonlinear_arith);
}

/// What a fraction has at a 128-bit scale: the largest integer in magnitude, within the signed range,
/// that does not exceed it. A zero denominator gives the end of the range.
pub proof fn law_fraction_quantized_128(q: Ratio, scale: u128, v: i128, y: Ratio)
    requires
        v == <Ratio as Quantize<u128, i128>>::quantized(q, scale),
    ensures
        q.den > 0 && q.num * scale >= 0 ==> v >= 0 && v * q.den <= q.num * scale && (v
            == i128::MAX || q.num * scale < (v + 1) * q.den),
        q.den > 0 && q.num * scale <= 0 ==> v <= 0 && v * q.den >= q.num * scale && (v
            == i128::MIN || (v - 1) * q.den < q.num * scale),
        q.den == 0 && scale > 0 && q.num > 0 ==> v == i128::MAX,
        q.den == 0 && scale > 0 && q.num < 0 ==> v == i128::MIN,
        q.den == 0 && (scale == 0 || q.num == 0) ==> v == 0,
        <Ratio as Quantize<u128, i128>>::dequantized(y, scale, v) <==> y.num == v && y.den == scale,
{
    if q.den > 0 {
        lemma_saturated(q.num * scale, q.den as int, i128::MIN as int, i128::MAX as int);
    }
}

/// A tensor on a host is on that host, and so is the fixed-point tensor that it makes.
pub proof fn law_placement_on_host<T>(
    x: AbstractRingTensor<T>,
    p: Result<HostPlacement>,
    q: Result<Placement>,
)
    ensures
        x.placement_is(p) ==> p == Ok::<HostPlacement, Error>(x.plc),
        FixedTensor::<
            AbstractRingTensor<T>,
            AbstractReplicatedRingTensor<AbstractRingTensor<T>>,
        >::RingTensor(x).placement_is(q) ==> q == Ok::<Placement, Error>(Placement::Host(x.plc)),
{
}

} // verus!
