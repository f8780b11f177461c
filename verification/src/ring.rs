//! Tensors over the rings of integers modulo 2^64 and 2^128.
use crate::array;
use crate::array::Array;
use crate::error::{Error, Result};
use crate::host_ops;
use crate::placement::{HostPlacement, Placed};
use vstd::prelude::*;

verus! {

/// The representative of `v` modulo `m` that lies around zero: what the bits of an unsigned word
/// mean when they are read as two's complement.
pub open spec fn centered(v: int, m: int) -> int {
    if 2 * v < m {
        v
    } else {
        v - m
    }
}

/// The words that ring tensors are made of.
pub trait RingElement: Copy {
    /// The signed word of the same width.
    type Signed: Copy;

    /// The size of the ring.
    spec fn modulus() -> int;

    /// The word as a natural number.
    spec fn val(self) -> int;

    /// A signed word as an integer.
    spec fn signed_val(s: Self::Signed) -> int;

    proof fn lemma_ring(x: Self)
        ensures
            0 <= x.val() < Self::modulus(),
            Self::modulus() >= 2,
            Self::modulus() % 2 == 0,
    ;

    proof fn lemma_signed_range(s: Self::Signed)
        ensures
            -Self::modulus() <= 2 * Self::signed_val(s) < Self::modulus(),
    ;

    proof fn lemma_signed_injective(s: Self::Signed, t: Self::Signed)
        requires
            Self::signed_val(s) == Self::signed_val(t),
        ensures
            s == t,
    ;

    /// The ring element that a signed word stands for.
    fn from_signed(s: Self::Signed) -> (r: Self)
        ensures
            r.val() == Self::signed_val(s) % Self::modulus(),
    ;

    /// The signed word with the same bits.
    fn to_signed(self) -> (s: Self::Signed)
        ensures
            Self::signed_val(s) == centered(self.val(), Self::modulus()),
    ;

    /// The ring element that a constant stands for.
    fn from_constant(c: u128) -> (r: Self)
        ensures
            r.val() == c as int % Self::modulus(),
    ;

    fn ring_add(self, other: Self) -> (r: Self)
        ensures
            r.val() == (self.val() + other.val()) % Self::modulus(),
    ;

    fn ring_sub(self, other: Self) -> (r: Self)
        ensures
            r.val() == (self.val() - other.val()) % Self::modulus(),
    ;

    /// Whether one element is less than another, both read as signed words.
    fn signed_less(self, other: Self) -> (r: bool)
        ensures
            r == (centered(self.val(), Self::modulus()) < centered(
                other.val(),
                Self::modulus(),
            )),
    ;

    /// The sum of all elements of an array.
    fn sum_elems(shape: &Vec<usize>, data: &Vec<Self>) -> (r: Self)
        requires
            (Array { shape: shape@, elems: data@.map_values(|v: Self| v.val()) }).wf(),
        ensures
            r.val() == array::seq_sum(data@.map_values(|v: Self| v.val())) % Self::modulus(),
    ;

    /// The sums along one axis of an array.
    fn sum_axis(shape: &Vec<usize>, data: &Vec<Self>, axis: usize) -> (r: (Vec<usize>, Vec<Self>))
        requires
            (Array { shape: shape@, elems: data@.map_values(|v: Self| v.val()) }).wf(),
            axis < shape@.len(),
            host_ops::can_sum(shape@, axis as int),
        ensures
            (Array { shape: r.0@, elems: r.1@.map_values(|v: Self| v.val()) }) == (Array {
                shape: shape@,
                elems: data@.map_values(|v: Self| v.val()),
            }).sum_axis(axis as int).map(host_ops::reduce(Self::modulus())),
    ;

    /// The elementwise product of two arrays.
    fn mul_elems(
        shape: &Vec<usize>,
        data: &Vec<Self>,
        other_shape: &Vec<usize>,
        other_data: &Vec<Self>,
    ) -> (r: (Vec<usize>, Vec<Self>))
        requires
            (Array { shape: shape@, elems: data@.map_values(|v: Self| v.val()) }).wf(),
            (Array { shape: other_shape@, elems: other_data@.map_values(|v: Self| v.val()) }).wf(),
            host_ops::can_zip(shape@, other_shape@),
        ensures
            (Array { shape: r.0@, elems: r.1@.map_values(|v: Self| v.val()) }) == (Array {
                shape: shape@,
                elems: data@.map_values(|v: Self| v.val()),
            }).zip(
                (Array { shape: other_shape@, elems: other_data@.map_values(|v: Self| v.val()) }),
                host_ops::mul_mod(Self::modulus()),
            ),
    ;
}

impl RingElement for u64 {
    type Signed = i64;

    open spec fn modulus() -> int {
        host_ops::modulus_64()
    }

    open spec fn val(self) -> int {
        self as int
    }

    open spec fn signed_val(s: i64) -> int {
        s as int
    }

    proof fn lemma_ring(x: u64) {
    }

    proof fn lemma_signed_range(s: i64) {
    }

    proof fn lemma_signed_injective(s: i64, t: i64) {
    }

    fn from_signed(s: i64) -> (r: u64) {
        assert(s >= 0 ==> (s as u64) == s) by (bit_vector);
        assert(s < 0 ==> (s as u64) == s + 0x1_0000_0000_0000_0000int) by (bit_vector);
        s as u64
    }

    fn to_signed(self) -> (s: i64) {
        let v = self;
        assert(v < 0x8000_0000_0000_0000u64 ==> (v as i64) == v) by (bit_vector);
        assert(v >= 0x8000_0000_0000_0000u64 ==> (v as i64) == v - 0x1_0000_0000_0000_0000int)
            by (bit_vector);
        v as i64
    }

    fn from_constant(c: u128) -> (r: u64) {
        assert((c as u64) == c % 0x1_0000_0000_0000_0000u128) by (bit_vector);
        c as u64
    }

    fn ring_add(self, other: u64) -> (r: u64) {
        self.wrapping_add(other)
    }

    fn ring_sub(self, other: u64) -> (r: u64) {
        self.wrapping_sub(other)
    }

    fn signed_less(self, other: u64) -> (r: bool) {
        self.to_signed() < other.to_signed()
    }

    fn sum_elems(shape: &Vec<usize>, data: &Vec<u64>) -> (r: u64) {
        proof {
            assert(data@.map_values(|v: u64| v.val()) =~= host_ops::array_64(
                shape@,
                data@,
            ).elems);
        }
        host_ops::sum_64(shape, data)
    }

    fn sum_axis(shape: &Vec<usize>, data: &Vec<u64>, axis: usize) -> (r: (Vec<usize>, Vec<u64>)) {
        proof {
            assert(data@.map_values(|v: u64| v.val()) =~= host_ops::array_64(
                shape@,
                data@,
            ).elems);
        }
        let r = host_ops::sum_axis_64(shape, data, axis);
        proof {
            assert(r.1@.map_values(|v: u64| v.val()) =~= host_ops::array_64(r.0@, r.1@).elems);
        }
        r
    }

    fn mul_elems(
        shape: &Vec<usize>,
        data: &Vec<u64>,
        other_shape: &Vec<usize>,
        other_data: &Vec<u64>,
    ) -> (r: (Vec<usize>, Vec<u64>)) {
        proof {
            assert(data@.map_values(|v: u64| v.val()) =~= host_ops::array_64(
                shape@,
                data@,
            ).elems);
            assert(other_data@.map_values(|v: u64| v.val()) =~= host_ops::array_64(
                other_shape@,
                other_data@,
            ).elems);
        }
        let r = host_ops::mul_64(shape, data, other_shape, other_data);
        proof {
            assert(r.1@.map_values(|v: u64| v.val()) =~= host_ops::array_64(r.0@, r.1@).elems);
        }
        r
    }
}

impl RingElement for u128 {
    type Signed = i128;

    open spec fn modulus() -> int {
        host_ops::modulus_128()
    }

    open spec fn val(self) -> int {
        self as int
    }

    open spec fn signed_val(s: i128) -> int {
        s as int
    }

    proof fn lemma_ring(x: u128) {
    }

    proof fn lemma_signed_range(s: i128) {
    }

    proof fn lemma_signed_injective(s: i128, t: i128) {
    }

    fn from_signed(s: i128) -> (r: u128) {
        assert(s >= 0 ==> (s as u128) == s) by (bit_vector);
        assert(s < 0 ==> (s as u128) == s + 0x1_0000_0000_0000_0000_0000_0000_0000_0000int) by (bit_vector);
        s as u128
    }

    fn to_signed(self) -> (s: i128) {
        let v = self;
        assert(v < 0x8000_0000_0000_0000_0000_0000_0000_0000u128 ==> (v as i128) == v) by (bit_vector);
        assert(v >= 0x8000_0000_0000_0000_0000_0000_0000_0000u128 ==> (v as i128) == v - 0x1_0000_0000_0000_0000_0000_0000_0000_0000int)
            by (bit_vector);
        v as i128
    }

    fn from_constant(c: u128) -> (r: u128) {
        c
    }

    fn ring_add(self, other: u128) -> (r: u128) {
        self.wrapping_add(other)
    }

    fn ring_sub(self, other: u128) -> (r: u128) {
        self.wrapping_sub(other)
    }

    fn signed_less(self, other: u128) -> (r: bool) {
        self.to_signed() < other.to_signed()
    }

    fn sum_elems(shape: &Vec<usize>, data: &Vec<u128>) -> (r: u128) {
        proof {
            assert(data@.map_values(|v: u128| v.val()) =~= host_ops::array_128(
                shape@,
                data@,
            ).elems);
        }
        host_ops::sum_128(shape, data)
    }

    fn sum_axis(shape: &Vec<usize>, data: &Vec<u128>, axis: usize) -> (r: (Vec<usize>, Vec<u128>)) {
        proof {
            assert(data@.map_values(|v: u128| v.val()) =~= host_ops::array_128(
                shape@,
                data@,
            ).elems);
        }
        let r = host_ops::sum_axis_128(shape, data, axis);
        proof {
            assert(r.1@.map_values(|v: u128| v.val()) =~= host_ops::array_128(r.0@, r.1@).elems);
        }
        r
    }

    fn mul_elems(
        shape: &Vec<usize>,
        data: &Vec<u128>,
        other_shape: &Vec<usize>,
        other_data: &Vec<u128>,
    ) -> (r: (Vec<usize>, Vec<u128>)) {
        proof {
            assert(data@.map_values(|v: u128| v.val()) =~= host_ops::array_128(
                shape@,
                data@,
            ).elems);
            assert(other_data@.map_values(|v: u128| v.val()) =~= host_ops::array_128(
                other_shape@,
                other_data@,
            ).elems);
        }
        let r = host_ops::mul_128(shape, data, other_shape, other_data);
        proof {
            assert(r.1@.map_values(|v: u128| v.val()) =~= host_ops::array_128(r.0@, r.1@).elems);
        }
        r
    }
}

/// A tensor of ring elements on a host: its shape, its elements in row-major order, and the host.
#[derive(Debug, PartialEq, Eq)]
pub struct AbstractRingTensor<T> {
    pub shape: Vec<usize>,
    pub data: Vec<T>,
    pub plc: HostPlacement,
}

/// A tensor over the integers modulo 2^64.
pub type Ring64Tensor = AbstractRingTensor<u64>;

/// A tensor over the integers modulo 2^128.
pub type Ring128Tensor = AbstractRingTensor<u128>;

impl<T: RingElement> View for AbstractRingTensor<T> {
    type V = Array;

    open spec fn view(&self) -> Array {
        Array { shape: self.shape@, elems: self.data@.map_values(|v: T| v.val()) }
    }
}

impl<T> Placed for AbstractRingTensor<T> {
    type Placement = HostPlacement;

    open spec fn placement_is(&self, r: Result<HostPlacement>) -> bool {
        r == Ok::<HostPlacement, Error>(self.plc)
    }

    fn placement(&self) -> (r: Result<HostPlacement>) {
        Ok(self.plc.clone())
    }
}

/// Whether the sums along an axis, or of all elements, can be taken.
pub open spec fn can_sum(shape: Seq<usize>, axis: Option<usize>) -> bool {
    match axis {
        Some(a) => a < shape.len() && host_ops::can_sum(shape, a as int),
        None => true,
    }
}

impl<T: RingElement> AbstractRingTensor<T> {
    /// A tensor of the given shape and elements on a host. It is an error if an array cannot have
    /// the shape, or has another number of elements.
    pub fn new(shape: Vec<usize>, data: Vec<T>, plc: HostPlacement) -> (r: Result<Self>)
        ensures
            match r {
                Ok(x) => {
                    &&& x@.wf()
                    &&& x.shape@ == shape@
                    &&& x.data@ == data@
                    &&& x.plc == plc
                },
                Err(e) => {
                    &&& !array::valid_shape(shape@) || data@.len() != array::size(shape@)
                    &&& e matches Error::InvalidArgument(message) && message@
                        == "shape does not fit the elements"@
                },
            },
    {
        if array::shape_is_valid(&shape) && array::shape_size(&shape) == data.len() {
            Ok(AbstractRingTensor { shape, data, plc })
        } else {
            Err(Error::InvalidArgument("shape does not fit the elements".to_string()))
        }
    }

    /// The sums along an axis, or of all elements where no axis is given, in the ring.
    pub fn sum(self, axis: Option<usize>) -> (r: Self)
        requires
            self@.wf(),
            can_sum(self@.shape, axis),
        ensures
            r@ == self@.sum(axis).map(host_ops::reduce(T::modulus())),
            r@.wf(),
            r.plc == self.plc,
    {
        match axis {
            Some(a) => {
                proof {
                    array::lemma_remove_axis_wf(self@, a as int);
                }
                let (shape, data) = T::sum_axis(&self.shape, &self.data, a);
                AbstractRingTensor { shape, data, plc: self.plc }
            },
            None => {
                let total = T::sum_elems(&self.shape, &self.data);
                let r = AbstractRingTensor { shape: Vec::new(), data: vec![total], plc: self.plc };
                proof {
                    assert(r@ =~= self@.sum(axis).map(host_ops::reduce(T::modulus())));
                    assert(array::valid_shape(r@.shape));
                }
                r
            },
        }
    }

    /// The elementwise product in the ring, the operands broadcast to their common shape.
    pub fn mul(self, other: Self) -> (r: Self)
        requires
            self@.wf(),
            other@.wf(),
            host_ops::can_zip(self@.shape, other@.shape),
        ensures
            r@ == self@.zip(other@, host_ops::mul_mod(T::modulus())),
            r@.wf(),
            r.plc == self.plc,
    {
        let (shape, data) = T::mul_elems(&self.shape, &self.data, &other.shape, &other.data);
        AbstractRingTensor { shape, data, plc: self.plc }
    }
}

} // verus!
