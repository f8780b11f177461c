use moose::array::Array;
use moose::error::Error;
use moose::fixedpoint::{Convert, Quantize, Real, RealTensor};
use moose::kernels::{
    Constant, PlacementDiv, PlacementExp, PlacementGreaterThan, PlacementMaximum,
    PlacementRingInject, Precision, RepFixedTensor,
};
use moose::placement::{HostPlacement, ReplicatedPlacement};
use moose::replicated::softmax::{MaximumOp, SoftmaxOp};
use moose::ring::{AbstractRingTensor, Ring128Tensor, Ring64Tensor, RingElement};
use moose::types::{BitTensor, HostShape, ReplicatedFixed128Tensor, ReplicatedFixed64Tensor};
use ndarray::{Array1, ArrayD, Axis, Zip};

#[derive(Debug, Clone, Copy, PartialEq)]
struct Float64(f64);

impl Real for Float64 {
    fn reciprocal_of(n: usize) -> Float64 {
        Float64(1.0 / n as f64)
    }

    fn reciprocal(n: usize) -> Float64 {
        Float64(1.0 / n as f64)
    }
}

impl Quantize<u64, i64> for Float64 {
    fn quantized(self, scale: u64) -> i64 {
        (self.0 * scale as f64) as i64
    }

    fn dequantized(self, scale: u64, v: i64) -> bool {
        self.0 == v as f64 / scale as f64
    }

    fn quantize(&self, scale: u64) -> i64 {
        (self.0 * scale as f64) as i64
    }

    fn dequantize(v: i64, scale: u64) -> Float64 {
        Float64(v as f64 / scale as f64)
    }
}

impl Quantize<u128, i128> for Float64 {
    fn quantized(self, scale: u128) -> i128 {
        (self.0 * scale as f64) as i128
    }

    fn dequantized(self, scale: u128, v: i128) -> bool {
        self.0 == v as f64 / scale as f64
    }

    fn quantize(&self, scale: u128) -> i128 {
        (self.0 * scale as f64) as i128
    }

    fn dequantize(v: i128, scale: u128) -> Float64 {
        Float64(v as f64 / scale as f64)
    }
}

/// A session that computes exponentials and quotients in floating point.
struct FloatSession;

fn power64(bits: u32) -> u64 {
    1 << bits
}

fn power128(bits: u32) -> u128 {
    1 << bits
}

impl PlacementExp<FloatSession, ReplicatedFixed64Tensor, ReplicatedFixed64Tensor>
    for ReplicatedPlacement
{
    fn is_exp(&self, _: &FloatSession, _: Option<Precision>, _: Array, _: Array) -> bool {
        unreachable!()
    }

    fn exp(&self, _sess: &FloatSession, x: &ReplicatedFixed64Tensor) -> ReplicatedFixed64Tensor {
        let scale = power64(x.fractional_precision);
        let values: RealTensor<Float64> = Convert::decode(&x.tensor, scale);
        let data = values.data.iter().map(|v| Float64(v.0.exp())).collect();
        RepFixedTensor {
            tensor: Convert::encode(&RealTensor { shape: values.shape, data }, scale),
            integral_precision: x.integral_precision,
            fractional_precision: x.fractional_precision,
        }
    }
}

impl PlacementExp<FloatSession, ReplicatedFixed128Tensor, ReplicatedFixed128Tensor>
    for ReplicatedPlacement
{
    fn is_exp(&self, _: &FloatSession, _: Option<Precision>, _: Array, _: Array) -> bool {
        unreachable!()
    }

    fn exp(&self, _sess: &FloatSession, x: &ReplicatedFixed128Tensor) -> ReplicatedFixed128Tensor {
        let scale = power128(x.fractional_precision);
        let values: RealTensor<Float64> = Convert::decode(&x.tensor, scale);
        let data = values.data.iter().map(|v| Float64(v.0.exp())).collect();
        RepFixedTensor {
            tensor: Convert::encode(&RealTensor { shape: values.shape, data }, scale),
            integral_precision: x.integral_precision,
            fractional_precision: x.fractional_precision,
        }
    }
}

fn divide(x: RealTensor<Float64>, y: RealTensor<Float64>) -> RealTensor<Float64> {
    let array = |t: RealTensor<Float64>| {
        ArrayD::from_shape_vec(t.shape, t.data.iter().map(|v| v.0).collect()).unwrap()
    };
    let z = array(x) / array(y);
    RealTensor { shape: z.shape().to_vec(), data: z.iter().map(|v| Float64(*v)).collect() }
}

impl PlacementDiv<
        FloatSession,
        ReplicatedFixed64Tensor,
        ReplicatedFixed64Tensor,
        ReplicatedFixed64Tensor,
    > for ReplicatedPlacement
{
    fn is_quotient(
        &self,
        _: &FloatSession,
        _: Option<Precision>,
        _: Array,
        _: Array,
        _: Array,
    ) -> bool {
        unreachable!()
    }

    fn div(
        &self,
        _sess: &FloatSession,
        x: &ReplicatedFixed64Tensor,
        y: &ReplicatedFixed64Tensor,
    ) -> ReplicatedFixed64Tensor {
        let scale = power64(x.fractional_precision);
        let z = divide(Convert::decode(&x.tensor, scale), Convert::decode(&y.tensor, scale));
        RepFixedTensor {
            tensor: Convert::encode(&z, scale),
            integral_precision: x.integral_precision,
            fractional_precision: x.fractional_precision,
        }
    }
}

impl PlacementDiv<
        FloatSession,
        ReplicatedFixed128Tensor,
        ReplicatedFixed128Tensor,
        ReplicatedFixed128Tensor,
    > for ReplicatedPlacement
{
    fn is_quotient(
        &self,
        _: &FloatSession,
        _: Option<Precision>,
        _: Array,
        _: Array,
        _: Array,
    ) -> bool {
        unreachable!()
    }

    fn div(
        &self,
        _sess: &FloatSession,
        x: &ReplicatedFixed128Tensor,
        y: &ReplicatedFixed128Tensor,
    ) -> ReplicatedFixed128Tensor {
        let scale = power128(x.fractional_precision);
        let z = divide(Convert::decode(&x.tensor, scale), Convert::decode(&y.tensor, scale));
        RepFixedTensor {
            tensor: Convert::encode(&z, scale),
            integral_precision: x.integral_precision,
            fractional_precision: x.fractional_precision,
        }
    }
}

fn alice() -> HostPlacement {
    HostPlacement { owner: "alice".to_string() }
}

fn rep() -> ReplicatedPlacement {
    ReplicatedPlacement {
        owners: ["alice".to_string(), "bob".to_string(), "carole".to_string()],
    }
}

fn ring64(shape: Vec<usize>, data: Vec<u64>) -> Ring64Tensor {
    Ring64Tensor::new(shape, data, alice()).unwrap()
}

fn softmax_64(
    x: ReplicatedFixed64Tensor,
    axis: u32,
    upmost_index: usize,
) -> ReplicatedFixed64Tensor {
    let limit = -1_f64 * 2_f64.powf((x.integral_precision - 1).into()).ln();
    let min_val = Float64(limit).quantize(power64(x.fractional_precision));
    SoftmaxOp::rep_fixed_kernel::<
        FloatSession,
        ReplicatedFixed64Tensor,
        HostShape,
        Ring64Tensor,
        BitTensor,
    >(
        &FloatSession,
        &rep(),
        Some(axis),
        upmost_index,
        Constant::Ring64(u64::from_signed(min_val)),
        x,
    )
    .unwrap()
}

fn softmax_128(
    x: ReplicatedFixed128Tensor,
    axis: u32,
    upmost_index: usize,
) -> ReplicatedFixed128Tensor {
    let limit = -1_f64 * 2_f64.powf((x.integral_precision - 1).into()).ln();
    let min_val = Float64(limit).quantize(power128(x.fractional_precision));
    SoftmaxOp::rep_fixed_kernel::<
        FloatSession,
        ReplicatedFixed128Tensor,
        HostShape,
        Ring128Tensor,
        BitTensor,
    >(
        &FloatSession,
        &rep(),
        Some(axis),
        upmost_index,
        Constant::Ring128(u128::from_signed(min_val)),
        x,
    )
    .unwrap()
}

fn test_rep_softmax_fixed64(x: ArrayD<f64>, y_target: Vec<f64>) {
    let encode = |item: &f64| -> u64 {
        let tmp: i64 = (2f64.powf(10 as f64) * item) as i64;
        tmp as u64
    };
    let x = RepFixedTensor {
        tensor: ring64(x.shape().to_vec(), x.iter().map(encode).collect()),
        integral_precision: 8,
        fractional_precision: 10,
    };
    let opened = softmax_64(x, 0, 9);
    let result: RealTensor<Float64> = Convert::decode(&opened.tensor, 2u64.pow(10));
    assert_eq!(result.shape, vec![9]);
    for i in 0..y_target.len() {
        let error = (result.data[i].0 - y_target[i]).abs();
        assert!(error < 0.01, "failed at index {:?}, error is {:?}", i, error);
    }
}

fn test_rep_softmax_fixed128(x: ArrayD<f64>, y_target: Vec<f64>) {
    let encode = |item: &f64| -> u128 {
        let tmp: i128 = (2f64.powf(27 as f64) * item) as i128;
        tmp as u128
    };
    let data: Vec<u128> = x.iter().map(encode).collect();
    let x = RepFixedTensor {
        tensor: Ring128Tensor::new(x.shape().to_vec(), data, alice()).unwrap(),
        integral_precision: 8,
        fractional_precision: 27,
    };
    let opened = softmax_128(x, 0, 9);
    let result: RealTensor<Float64> = Convert::decode(&opened.tensor, 2u128.pow(27));
    assert_eq!(result.shape, vec![9]);
    for i in 0..y_target.len() {
        let error = (result.data[i].0 - y_target[i]).abs();
        assert!(error < 0.01, "failed at index {:?}, error is {:?}", i, error);
    }
}

fn softmax_target(x: &ArrayD<f64>) -> Vec<f64> {
    let mut x_max = x.index_axis(Axis(0), 0).to_owned();
    for x_item in x.axis_iter(Axis(0)) {
        Zip::from(&mut x_max)
            .and(&x_item)
            .for_each(|entry_a, &entry_b| *entry_a = f64::max(*entry_a, entry_b));
    }
    let y = x.clone() - x_max;
    let y_exp = y.map(|item| item.exp());
    let softmax = y_exp.clone() / y_exp.sum_axis(Axis(0));
    softmax.iter().map(|item| item.clone()).collect()
}

#[test]
fn test_softmax_64() {
    let x = Array1::from(vec![1f64, 2.5, -3.0, 4.0, 2.0, -2.0, -2.0, -3.0, 3.0]).into_dyn();
    let y_targets = softmax_target(&x);
    test_rep_softmax_fixed64(x, y_targets);
}

#[test]
fn test_softmax_128() {
    let x = Array1::from(vec![1f64, 2.5, -3.0, 4.0, 2.0, -2.0, -2.0, -3.0, 3.0]).into_dyn();
    let y_targets = softmax_target(&x);
    test_rep_softmax_fixed128(x, y_targets);
}

#[test]
fn softmax_of_columns() {
    let x = RepFixedTensor {
        tensor: ring64(vec![2, 3], vec![0, 1024, 0, 0, 0, 2048]),
        integral_precision: 8,
        fractional_precision: 10,
    };
    let r = softmax_64(x, 0, 2);
    let result: RealTensor<Float64> = Convert::decode(&r.tensor, 1 << 10);
    assert_eq!(result.shape, vec![2, 3]);
    let e = 1f64.exp();
    let want = [0.5, e / (1.0 + e), 1.0 / (1.0 + e * e), 0.5, 1.0 / (1.0 + e), e * e / (1.0 + e * e)];
    for i in 0..6 {
        assert!((result.data[i].0 - want[i]).abs() < 0.01, "failed at index {:?}", i);
    }
}

#[test]
fn exponentials_below_the_bound_count_as_zero() {
    let x = RepFixedTensor {
        tensor: ring64(vec![2], vec![0, u64::from_signed(-5 * 1024)]),
        integral_precision: 8,
        fractional_precision: 10,
    };
    let r = softmax_64(x, 0, 2);
    assert_eq!(r.tensor.data, vec![1024, 0]);
    assert_eq!((r.integral_precision, r.fractional_precision), (8, 10));

    let x = RepFixedTensor {
        tensor: ring64(vec![2], vec![0, u64::from_signed(-4 * 1024)]),
        integral_precision: 8,
        fractional_precision: 10,
    };
    assert!(softmax_64(x, 0, 2).tensor.data[1] > 0);
}

fn maximum<T: RingElement>(
    xs: &[AbstractRingTensor<T>],
) -> Result<AbstractRingTensor<T>, Error> {
    MaximumOp::kernel::<(), AbstractRingTensor<T>, BitTensor, AbstractRingTensor<T>>(
        &(),
        &rep(),
        xs,
    )
}

#[test]
fn the_maximum_of_no_tensors_is_an_error() {
    assert_eq!(
        maximum::<u64>(&[]),
        Err(Error::InvalidArgument(
            "maximum op needs a non-empty array of tensors".to_string()
        ))
    );
}

#[test]
fn the_maximum_is_taken_at_each_position_of_signed_words() {
    let minus = |v: i64| u64::from_signed(-v);
    let xs = vec![
        ring64(vec![3], vec![1, minus(5), minus(1)]),
        ring64(vec![3], vec![2, minus(3), minus(2)]),
        ring64(vec![3], vec![minus(9), minus(4), minus(3)]),
    ];
    let r = maximum(&xs).unwrap();
    assert_eq!((r.shape, r.data), (vec![3], vec![2, minus(3), minus(1)]));
    let one = maximum(&xs[2..]).unwrap();
    assert_eq!(one, xs[2]);

    let plc = HostPlacement { owner: String::new() };
    let xs: Vec<Ring128Tensor> = (0..5)
        .map(|i| {
            Ring128Tensor::new(vec![1], vec![u128::from_signed(i - 2)], plc.clone()).unwrap()
        })
        .collect();
    assert_eq!(maximum(&xs).unwrap().data, vec![2]);
}

#[test]
fn the_maximum_broadcasts() {
    let xs = vec![ring64(vec![], vec![2]), ring64(vec![3], vec![1, 2, 3])];
    let r = maximum(&xs).unwrap();
    assert_eq!((r.shape, r.data), (vec![3], vec![2, 2, 3]));
}

fn fixed(data: Vec<u64>, integral_precision: u32) -> ReplicatedFixed64Tensor {
    RepFixedTensor {
        tensor: ring64(vec![data.len()], data),
        integral_precision,
        fractional_precision: 10,
    }
}

#[test]
fn fixed_point_tensors_keep_their_precision_in_a_maximum() {
    let xs = vec![fixed(vec![1, 7], 8), fixed(vec![3, 4], 8)];
    let r: ReplicatedFixed64Tensor = rep().maximum(&(), &xs);
    assert_eq!(r.tensor.data, vec![3, 7]);
    assert_eq!((r.integral_precision, r.fractional_precision), (8, 10));
}

#[test]
fn comparison_is_strict() {
    let b: BitTensor = rep().greater_than(&(), &fixed(vec![1, 2, 3], 8), &fixed(vec![2, 2, 2], 8));
    assert_eq!(b, BitTensor { shape: vec![3], data: vec![false, false, true] });
}

#[test]
fn bits_are_injected_at_their_position() {
    let b = BitTensor { shape: vec![2], data: vec![true, false] };
    let r: Ring64Tensor = rep().ring_inject(&(), 63, &b);
    assert_eq!(r.data, vec![1 << 63, 0]);
    let r: Ring128Tensor = rep().ring_inject(&(), 0, &b);
    assert_eq!(r.data, vec![1, 0]);
}

#[test]
fn constants_have_a_value() {
    assert_eq!(Constant::from(1u8), Constant::Bit(1));
    assert_eq!(Constant::Bit(1).value(), 1);
    assert_eq!(Constant::Ring64(u64::MAX).value(), u64::MAX as u128);
    assert_eq!(Constant::Ring128(u128::MAX).value(), u128::MAX);
}

#[test]
fn exponents_are_not_positive_and_one_is_zero() {
    let minus = |v: i64| u64::from_signed(-v);
    let x = ring64(vec![3, 2], vec![minus(7), 4, 2, minus(1), 1, 9]);
    let rows = vec![
        ring64(vec![2], vec![minus(7), 4]),
        ring64(vec![2], vec![2, minus(1)]),
        ring64(vec![2], vec![1, 9]),
    ];
    let largest = maximum(&rows).unwrap();
    let diff: Ring64Tensor = moose::kernels::PlacementSub::sub(&rep(), &(), &x, &largest);
    let signed: Vec<i64> = diff.data.iter().map(|v| v.to_signed()).collect();
    assert_eq!(signed, vec![-9, -5, 0, -10, -1, 0]);
}
