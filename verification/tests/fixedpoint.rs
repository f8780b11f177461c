use moose::error::Error;
use moose::fixedpoint::{Convert, FixedTensor, FixedpointRingMeanOp, Quantize, Real, RealTensor};
use moose::placement::{HostPlacement, Placed, Placement, ReplicatedPlacement};
use moose::ratio::Ratio;
use moose::replicated::tensor::AbstractReplicatedRingTensor;
use moose::ring::{Ring128Tensor, Ring64Tensor, RingElement};
use moose::types::{Fixed128Tensor, Fixed64Tensor};

#[derive(Debug, Clone, Copy, PartialEq)]
struct Float64(f64);

impl Real for Float64 {
    fn reciprocal_of(n: usize) -> Float64 {
        Float64(1.0 / n as f64)
    }

    fn reciprocal(n: usize) -> Float64 {
        Float64(1.0 / n as f64)
    }
}

impl Quantize<u64, i64> for Float64 {
    fn quantized(self, scale: u64) -> i64 {
        (self.0 * scale as f64) as i64
    }

    fn dequantized(self, scale: u64, v: i64) -> bool {
        self.0 == v as f64 / scale as f64
    }

    fn quantize(&self, scale: u64) -> i64 {
        (self.0 * scale as f64) as i64
    }

    fn dequantize(v: i64, scale: u64) -> Float64 {
        Float64(v as f64 / scale as f64)
    }
}

impl Quantize<u128, i128> for Float64 {
    fn quantized(self, scale: u128) -> i128 {
        (self.0 * scale as f64) as i128
    }

    fn dequantized(self, scale: u128, v: i128) -> bool {
        self.0 == v as f64 / scale as f64
    }

    fn quantize(&self, scale: u128) -> i128 {
        (self.0 * scale as f64) as i128
    }

    fn dequantize(v: i128, scale: u128) -> Float64 {
        Float64(v as f64 / scale as f64)
    }
}

fn floats(shape: Vec<usize>, data: Vec<f64>) -> RealTensor<Float64> {
    RealTensor { shape, data: data.into_iter().map(Float64).collect() }
}

fn host(name: &str) -> HostPlacement {
    HostPlacement { owner: name.to_string() }
}

fn ring64(shape: Vec<usize>, data: Vec<u64>) -> Ring64Tensor {
    Ring64Tensor::new(shape, data, host("")).unwrap()
}

fn ring128(shape: Vec<usize>, data: Vec<u128>) -> Ring128Tensor {
    Ring128Tensor::new(shape, data, host("")).unwrap()
}

#[test]
fn ring_fixedpoint() {
    let x = floats(vec![4], vec![1.0, -2.0, 3.0, -4.0]);

    let scaling_factor = 2u64.pow(16);
    let x_encoded = Ring64Tensor::encode(&x, scaling_factor);
    assert_eq!(
        x_encoded,
        ring64(vec![4], vec![65536, 18446744073709420544, 196608, 18446744073709289472])
    );

    let x_decoded = Ring64Tensor::decode(&x_encoded, scaling_factor);
    assert_eq!(x_decoded, x);

    let scaling_factor_long = 2u128.pow(80);
    let x_encoded = Ring128Tensor::encode(&x, scaling_factor_long);
    assert_eq!(
        x_encoded,
        ring128(
            vec![4],
            vec![
                1208925819614629174706176,
                340282366920936045611735378173418799104,
                3626777458843887524118528,
                340282366920933627760096148915069386752
            ]
        )
    );

    let x_decoded_long = Ring128Tensor::decode(&x_encoded, scaling_factor_long);
    assert_eq!(x_decoded_long, x);
}

#[test]
fn ring_mean_with_axis() {
    let x_backing = floats(vec![2, 2], vec![1., 2., 3., 4.]);
    let encoding_factor = 2u64.pow(16);
    let decoding_factor = 2u64.pow(32);
    let x = Ring64Tensor::encode(&x_backing, encoding_factor);
    let out = Ring64Tensor::ring_mean::<Float64>(x, Some(0), encoding_factor);
    let dec = Ring64Tensor::decode(&out, decoding_factor);
    assert_eq!(dec, floats(vec![2], vec![2., 3.]));
}

#[test]
fn ring_mean_no_axis() {
    let x_backing = floats(vec![2, 2], vec![1., 2., 3., 4.]);
    let encoding_factor = 2u64.pow(16);
    let decoding_factor = 2u64.pow(32);
    let x = Ring64Tensor::encode(&x_backing, encoding_factor);
    let out = Ring64Tensor::ring_mean::<Float64>(x, None, encoding_factor);
    let dec = Ring64Tensor::decode(&out, decoding_factor);
    assert_eq!(dec, floats(vec![], vec![2.5]));
}

#[test]
fn ring_mean_of_128_bit_tensor() {
    let x_backing = floats(vec![2, 2], vec![1., -2., 3., -4.]);
    let x = Ring128Tensor::encode(&x_backing, 1u128 << 40);
    let out = Ring128Tensor::ring_mean::<Float64>(x.clone(), Some(1), 1u128 << 40);
    let dec = Ring128Tensor::decode(&out, 1u128 << 80);
    assert_eq!(dec, floats(vec![2], vec![-0.5, -0.5]));
    let out = Ring128Tensor::ring_mean::<Float64>(x, None, 1u128 << 40);
    let dec = Ring128Tensor::decode(&out, 1u128 << 80);
    assert_eq!(dec, floats(vec![], vec![-0.5]));
}

#[test]
fn means_stay_on_the_host_of_the_tensor() {
    let x = Ring64Tensor::new(vec![2], vec![2, 4], host("alice")).unwrap();
    let out = Ring64Tensor::ring_mean::<Float64>(x, Some(0), 256);
    assert_eq!(out, Ring64Tensor::new(vec![], vec![6 * 128], host("alice")).unwrap());
}

#[test]
fn weighted_means_multiply_the_sums() {
    let x = ring64(vec![2, 3], vec![1, 2, 3, 10, 20, 30]);
    let weight = ring64(vec![], vec![5]);
    let out = Ring64Tensor::weighted_mean(x, Some(1), weight);
    assert_eq!(out, ring64(vec![2], vec![30, 300]));

    let x = ring64(vec![2], vec![u64::MAX, 3]);
    let weight = ring64(vec![], vec![u64::MAX]);
    let out = Ring64Tensor::weighted_mean(x, None, weight);
    assert_eq!(out, ring64(vec![], vec![u64::MAX - 1]));
}

#[test]
fn kernels_scale_by_a_power_and_place_the_mean() {
    let x = ring64(vec![2, 2], vec![1 << 16, 2 << 16, 3 << 16, 4 << 16]);
    let plc = host("bob");
    let out = FixedpointRingMeanOp::kernel_ring64tensor::<(), Float64>(
        &(),
        &plc,
        Some(0),
        2,
        16,
        x.clone(),
    );
    assert_eq!(out, Ring64Tensor::new(vec![2], vec![2 << 32, 3 << 32], host("bob")).unwrap());
    let out = FixedpointRingMeanOp::kernel_ring64tensor::<(), Float64>(&(), &plc, None, 10, 1, x);
    assert_eq!(out, Ring64Tensor::new(vec![], vec![20 << 16], host("bob")).unwrap());

    let x = ring128(vec![2, 2], vec![1 << 16, 2 << 16, 3 << 16, 4 << 16]);
    let out = FixedpointRingMeanOp::kernel_ring128tensor::<(), Float64>(
        &(),
        &plc,
        Some(0),
        2,
        70,
        x,
    );
    assert_eq!(out, Ring128Tensor::new(vec![2], vec![2 << 86, 3 << 86], host("bob")).unwrap());
}

#[test]
fn kernels_take_a_zeroth_power_and_small_bases() {
    let plc = host("bob");
    let x = ring64(vec![1], vec![7]);
    let zeroth = FixedpointRingMeanOp::kernel_ring64tensor::<(), Float64>(
        &(),
        &plc,
        None,
        0,
        0,
        x.clone(),
    );
    assert_eq!(zeroth.data, vec![7]);
    let ones = FixedpointRingMeanOp::kernel_ring64tensor::<(), Float64>(
        &(),
        &plc,
        None,
        1,
        u32::MAX,
        x.clone(),
    );
    assert_eq!(ones.data, vec![7]);
    let zeros =
        FixedpointRingMeanOp::kernel_ring64tensor::<(), Float64>(&(), &plc, None, 0, 9, x);
    assert_eq!(zeros.data, vec![0]);
}

#[test]
fn encoding_rounds_toward_zero() {
    let x = floats(vec![2], vec![1.9, -1.9]);
    assert_eq!(Ring64Tensor::encode(&x, 1).data, vec![1, u64::MAX]);
    assert_eq!(Ring128Tensor::encode(&x, 1).data, vec![1, u128::MAX]);
}

#[test]
fn empty_tensors_encode_and_decode() {
    let x = floats(vec![0, 3], vec![]);
    let encoded = Ring64Tensor::encode(&x, 1 << 16);
    assert_eq!(encoded, ring64(vec![0, 3], vec![]));
    let decoded: RealTensor<Float64> = Ring64Tensor::decode(&encoded, 1 << 16);
    assert_eq!(decoded, x);
}

#[test]
fn fractions_survive_encoding() {
    let x = RealTensor {
        shape: vec![3],
        data: vec![
            Ratio { num: 3, den: 4 },
            Ratio { num: -5, den: 2 },
            Ratio { num: 0, den: 7 },
        ],
    };
    let encoded = Ring64Tensor::encode(&x, 16);
    assert_eq!(encoded.data, vec![12, u64::MAX - 39, 0]);
    let decoded: RealTensor<Ratio> = Ring64Tensor::decode(&encoded, 16);
    assert_eq!(
        decoded.data,
        vec![
            Ratio { num: 12, den: 16 },
            Ratio { num: -40, den: 16 },
            Ratio { num: 0, den: 16 },
        ]
    );
}

#[test]
fn fractions_truncate_and_saturate() {
    let quantize =
        |num: i64, den: u64, scale: u64| Ratio { num: num.into(), den: den.into() }.quantize(scale);
    assert_eq!(quantize(7, 2, 1), 3);
    assert_eq!(quantize(-7, 2, 1), -3);
    assert_eq!(quantize(i64::MAX, 1, 2), i64::MAX);
    assert_eq!(quantize(i64::MIN, 1, 2), i64::MIN);
    assert_eq!(quantize(i64::MIN, 1, 1), i64::MIN);
    assert_eq!(quantize(i64::MIN, u64::MAX, u64::MAX), i64::MIN);
    assert_eq!(quantize(i64::MAX, 1, 1), i64::MAX);
    assert_eq!(quantize(1, 0, 5), i64::MAX);
    assert_eq!(quantize(-1, 0, 5), i64::MIN);
    assert_eq!(quantize(0, 0, 5), 0);
    assert_eq!(quantize(1, 0, 0), 0);
    assert_eq!(Ratio::reciprocal(3), Ratio { num: 1, den: 3 });
    assert_eq!(Ratio::dequantize(-3i64, 8u64), Ratio { num: -3, den: 8 });
}

#[test]
fn wide_fractions_truncate_and_saturate() {
    let quantize = |num: i128, den: u128, scale: u128| -> i128 { Ratio { num, den }.quantize(scale) };
    assert_eq!(quantize(7, 2, 1), 3);
    assert_eq!(quantize(-7, 2, 1), -3);
    assert_eq!(quantize(-5, 3, 1 << 100), -((5i128 << 100) / 3));
    assert_eq!(quantize(i128::MAX, u128::MAX, u128::MAX), i128::MAX);
    assert_eq!(quantize(i128::MIN, u128::MAX, u128::MAX), i128::MIN);
    assert_eq!(quantize(i128::MAX, u128::MAX, u128::MAX - 1), i128::MAX - 1);
    assert_eq!(quantize(i128::MIN, u128::MAX - 1, u128::MAX), i128::MIN);
    assert_eq!(quantize(i128::MAX, 1, 2), i128::MAX);
    assert_eq!(quantize(i128::MIN, 1, 2), i128::MIN);
    assert_eq!(quantize(i128::MIN, 1, 1), i128::MIN);
    assert_eq!(quantize(i128::MAX, 1, u128::MAX), i128::MAX);
    assert_eq!(quantize(1, 0, 5), i128::MAX);
    assert_eq!(quantize(-1, 0, 5), i128::MIN);
    assert_eq!(quantize(0, 0, 5), 0);
    assert_eq!(quantize(1, 0, 0), 0);
    assert_eq!(Ratio { num: i128::MAX, den: 3 }.quantize(7u64), i64::MAX);
    assert_eq!(Ratio { num: i128::MIN, den: 1 << 127 }.quantize(7u64), -7i64);
    assert_eq!(Ratio::dequantize(i128::MIN, u128::MAX), Ratio { num: i128::MIN, den: u128::MAX });
}

#[test]
fn fractions_that_the_scale_does_not_make_whole_lose_less_than_one_part() {
    let x = RealTensor {
        shape: vec![4],
        data: vec![
            Ratio { num: 2, den: 3 },
            Ratio { num: -2, den: 3 },
            Ratio { num: 1, den: 1000 },
            Ratio { num: -9, den: 8 },
        ],
    };
    let encoded = Ring64Tensor::encode(&x, 16);
    let decoded: RealTensor<Ratio> = Ring64Tensor::decode(&encoded, 16);
    let nums: Vec<i128> = decoded.data.iter().map(|q| q.num).collect();
    assert_eq!(nums, vec![10, -10, 0, -18]);
    let encoded = Ring128Tensor::encode(&x, 16);
    let decoded_wide: RealTensor<Ratio> = Ring128Tensor::decode(&encoded, 16);
    assert_eq!(decoded_wide, decoded);
    for (q, y) in x.data.iter().zip(&decoded.data) {
        let error = y.num * q.den as i128 - q.num * 16;
        assert!(error.abs() < q.den as i128);
        assert!((y.num * q.den as i128).abs() <= (q.num * 16).abs());
    }
}

#[test]
fn wide_fractions_survive_encoding() {
    let x = RealTensor {
        shape: vec![2],
        data: vec![Ratio { num: 3, den: 4 }, Ratio { num: -5, den: 2 }],
    };
    let encoded = Ring128Tensor::encode(&x, 1 << 100);
    assert_eq!(encoded.data, vec![3 << 98, u128::from_signed(-(5 << 99))]);
    let decoded: RealTensor<Ratio> = Ring128Tensor::decode(&encoded, 1 << 100);
    assert_eq!(
        decoded.data,
        vec![Ratio { num: 3 << 98, den: 1 << 100 }, Ratio { num: -(5 << 99), den: 1 << 100 }]
    );
}

#[test]
fn wide_fraction_means_are_exact_where_the_scale_allows() {
    let x = ring128(vec![2, 2], vec![1, 2, 3, 4]);
    let out = Ring128Tensor::ring_mean::<Ratio>(x.clone(), Some(0), 6 << 100);
    assert_eq!(out, ring128(vec![2], vec![12 << 100, 18 << 100]));
    let out = Ring128Tensor::ring_mean::<Ratio>(x, None, 8);
    assert_eq!(out, ring128(vec![], vec![20]));
}

#[test]
fn mean_weights_depend_on_the_shape_alone() {
    let x = ring64(vec![2, 3], vec![1, 2, 3, 4, 5, 6]);
    let y = ring64(vec![2, 3], vec![0, 0, 9, 9, u64::MAX, 7]);
    let weight = |t: &Ring64Tensor, axis: Option<usize>| -> RealTensor<Ratio> {
        Ring64Tensor::compute_mean_weight(t, &axis)
    };
    let one_over = |den: u128| RealTensor { shape: vec![], data: vec![Ratio { num: 1, den }] };
    for (axis, n) in [(Some(0), 2), (Some(1), 3), (None, 6)] {
        assert_eq!(weight(&x, axis), one_over(n));
        assert_eq!(weight(&y, axis), one_over(n));
    }
    assert_eq!(weight(&ring64(vec![], vec![5]), None), one_over(1));
    assert_eq!(
        Ring64Tensor::compute_mean_weight::<Float64>(&x, &Some(1)),
        floats(vec![], vec![1.0 / 3.0])
    );
}

#[test]
fn fraction_means_are_exact_where_the_scale_allows() {
    let x = ring64(vec![2, 2], vec![1, 2, 3, 4]);
    let out = Ring64Tensor::ring_mean::<Ratio>(x.clone(), Some(0), 6);
    assert_eq!(out, ring64(vec![2], vec![12, 18]));
    let out = Ring64Tensor::ring_mean::<Ratio>(x, None, 8);
    assert_eq!(out, ring64(vec![], vec![20]));

    let negative = ring64(vec![2], vec![u64::MAX, u64::MAX - 2]);
    let out = Ring64Tensor::ring_mean::<Ratio>(negative, Some(0), 2);
    assert_eq!(out.data[0].to_signed(), -4);
}

#[test]
fn the_mean_of_nothing_is_a_sum_of_nothing() {
    let x = ring64(vec![0, 2], vec![]);
    let out = Ring64Tensor::ring_mean::<Ratio>(x, Some(0), 4);
    assert_eq!(out, ring64(vec![2], vec![0, 0]));
}

fn shared(names: [&str; 6]) -> AbstractReplicatedRingTensor<Ring64Tensor> {
    let share = |name: &str| Ring64Tensor::new(vec![], vec![1], host(name)).unwrap();
    AbstractReplicatedRingTensor {
        shares: [
            [share(names[0]), share(names[1])],
            [share(names[2]), share(names[3])],
            [share(names[4]), share(names[5])],
        ],
    }
}

#[test]
fn fixed_tensors_are_where_their_tensor_is() {
    let x = Ring64Tensor::new(vec![], vec![1], host("alice")).unwrap();
    assert_eq!(x.placement(), Ok(host("alice")));
    let fixed: Fixed64Tensor = FixedTensor::RingTensor(x);
    assert_eq!(fixed.placement(), Ok(Placement::Host(host("alice"))));

    let rep = ReplicatedPlacement {
        owners: ["alice".to_string(), "bob".to_string(), "carole".to_string()],
    };
    let x = shared(["alice", "alice", "bob", "bob", "carole", "carole"]);
    let fixed: Fixed64Tensor = FixedTensor::ReplicatedTensor(x);
    assert_eq!(fixed.placement(), Ok(Placement::Replicated(rep)));

    let x = Ring128Tensor::new(vec![], vec![1], host("bob")).unwrap();
    let fixed: Fixed128Tensor = FixedTensor::RingTensor(x);
    assert_eq!(fixed.placement(), Ok(Placement::Host(host("bob"))));
}

#[test]
fn shares_of_a_host_have_to_agree_on_the_host() {
    let x = shared(["alice", "alice", "bob", "carole", "carole", "carole"]);
    assert_eq!(x.placement(), Err(Error::MalformedPlacement));
    let fixed: Fixed64Tensor = FixedTensor::ReplicatedTensor(x);
    assert_eq!(fixed.placement(), Err(Error::MalformedPlacement));
}

#[test]
fn placing_moves_a_tensor() {
    let x = Ring64Tensor::new(vec![2], vec![1, 2], host("alice")).unwrap();
    let placed = host("bob").place(&(), x);
    assert_eq!(placed, Ring64Tensor::new(vec![2], vec![1, 2], host("bob")).unwrap());
}

#[test]
fn placements_generalize() {
    let plc: Placement = host("alice").into();
    assert_eq!(plc, Placement::Host(host("alice")));
}

#[test]
fn the_mean_of_a_sum_is_the_sum_of_the_means() {
    let x = ring64(vec![2, 2], vec![1, u64::MAX, 1 << 63, 7]);
    let y = ring64(vec![2, 2], vec![u64::MAX, u64::MAX - 4, 1 << 63, 5]);
    let add = |a: &Ring64Tensor, b: &Ring64Tensor| {
        let data = a.data.iter().zip(&b.data).map(|(v, w)| v.wrapping_add(*w)).collect();
        ring64(a.shape.clone(), data)
    };
    for axis in [Some(0), Some(1), None] {
        let mean = |t: Ring64Tensor| Ring64Tensor::ring_mean::<Float64>(t, axis, 1 << 20);
        assert_eq!(mean(add(&x, &y)), add(&mean(x.clone()), &mean(y.clone())));
    }
    let mean = Ring64Tensor::ring_mean::<Float64>(add(&x, &y), Some(0), 4);
    assert_eq!(mean.data, vec![0, 12]);

    let x = ring128(vec![3], vec![u128::MAX, 2, 1 << 127]);
    let y = ring128(vec![3], vec![5, u128::MAX - 1, 1 << 127]);
    let sum = ring128(vec![3], vec![4, 0, 0]);
    let mean = |t: Ring128Tensor| Ring128Tensor::ring_mean::<Ratio>(t, None, 300).data[0];
    assert_eq!(mean(sum), 400);
    assert_eq!(mean(x).wrapping_add(mean(y)), 400);
}
