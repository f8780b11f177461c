use moose::array::{shape_is_valid, shape_size};
use moose::error::Error;
use moose::index::{axis_positions, broadcast_shape, offset, unravel, zip_positions};
use moose::placement::HostPlacement;
use moose::ring::{Ring128Tensor, Ring64Tensor, RingElement};

fn alice() -> HostPlacement {
    HostPlacement { owner: "alice".to_string() }
}

fn ring64(shape: Vec<usize>, data: Vec<u64>) -> Ring64Tensor {
    Ring64Tensor::new(shape, data, alice()).unwrap()
}

fn ring128(shape: Vec<usize>, data: Vec<u128>) -> Ring128Tensor {
    Ring128Tensor::new(shape, data, alice()).unwrap()
}

#[test]
fn tensors_have_as_many_elements_as_their_shape_says() {
    let mismatch = Error::InvalidArgument("shape does not fit the elements".to_string());
    assert_eq!(Ring64Tensor::new(vec![2], vec![1], alice()), Err(mismatch));
    let mismatch = Error::InvalidArgument("shape does not fit the elements".to_string());
    assert_eq!(Ring64Tensor::new(vec![usize::MAX, 2, 0], vec![], alice()), Err(mismatch));
    let x = Ring64Tensor::new(vec![2, 0], vec![], alice()).unwrap();
    assert_eq!((x.shape, x.data, x.plc), (vec![2, 0], vec![], alice()));
}

#[test]
fn shapes_have_a_size_that_fits() {
    assert!(shape_is_valid(&vec![]));
    assert!(shape_is_valid(&vec![isize::MAX as usize, 0]));
    assert!(!shape_is_valid(&vec![isize::MAX as usize + 1]));
    assert!(!shape_is_valid(&vec![1 << 40, 1 << 40, 0]));
    assert_eq!(shape_size(&vec![]), 1);
    assert_eq!(shape_size(&vec![2, 3, 4]), 24);
    assert_eq!(shape_size(&vec![2, 0, 4]), 0);
}

#[test]
fn sums_of_all_elements_wrap() {
    let x = ring64(vec![2, 2], vec![u64::MAX, 2, 3, 4]);
    assert_eq!(x.sum(None), ring64(vec![], vec![8]));
    let x = ring128(vec![2, 2], vec![u128::MAX, 2, 3, 4]);
    assert_eq!(x.sum(None), ring128(vec![], vec![8]));
    assert_eq!(ring64(vec![0], vec![]).sum(None), ring64(vec![], vec![0]));
}

#[test]
fn sums_along_an_axis_wrap() {
    let x = ring64(vec![2, 3], vec![1, 2, u64::MAX, 10, 20, 30]);
    assert_eq!(x.clone().sum(Some(0)), ring64(vec![3], vec![11, 22, 29]));
    assert_eq!(x.sum(Some(1)), ring64(vec![2], vec![2, 60]));
    let x = ring128(vec![2, 3], vec![1, 2, u128::MAX, 10, 20, 30]);
    assert_eq!(x.clone().sum(Some(0)), ring128(vec![3], vec![11, 22, 29]));
    assert_eq!(x.sum(Some(1)), ring128(vec![2], vec![2, 60]));
    let x = ring64(vec![2, 2, 2], vec![1, 2, 3, 4, 5, 6, 7, 8]);
    assert_eq!(x.sum(Some(1)), ring64(vec![2, 2], vec![4, 6, 12, 14]));
}

#[test]
fn products_wrap_and_broadcast() {
    let x = ring64(vec![2, 2], vec![1, 2, 3, u64::MAX]);
    let y = ring64(vec![2], vec![10, 20]);
    let z = ring64(vec![2, 2], vec![10, 40, 30, u64::MAX - 19]);
    assert_eq!(x.clone().mul(y.clone()), z);
    assert_eq!(y.mul(x), z);

    let column = ring64(vec![2, 1], vec![1, 2]);
    let row = ring64(vec![1, 3], vec![3, 4, 5]);
    assert_eq!(column.mul(row), ring64(vec![2, 3], vec![3, 4, 5, 6, 8, 10]));

    let x = ring128(vec![2, 2], vec![1, 2, 3, u128::MAX]);
    let y = ring128(vec![], vec![10]);
    assert_eq!(x.mul(y), ring128(vec![2, 2], vec![10, 20, 30, u128::MAX - 9]));
}

#[test]
fn words_are_read_as_twos_complement() {
    assert_eq!(u64::from_signed(-1), u64::MAX);
    assert_eq!(u64::from_signed(i64::MIN), 1 << 63);
    assert_eq!((1u64 << 63).to_signed(), i64::MIN);
    assert_eq!(((1u64 << 63) - 1).to_signed(), i64::MAX);
    assert_eq!(u128::from_signed(-1), u128::MAX);
    assert_eq!((1u128 << 127).to_signed(), i128::MIN);
    assert!(u64::MAX.signed_less(0));
    assert!(!0u64.signed_less(u64::MAX));
    assert!(u128::MAX.signed_less(0));
    assert!(!3u128.signed_less(3));
    assert_eq!(u64::from_constant(u128::MAX), u64::MAX);
    assert_eq!(u64::from_constant((1 << 64) + 5), 5);
    assert_eq!(u128::from_constant(u128::MAX), u128::MAX);
    assert_eq!(RingElement::ring_add(u64::MAX, 2u64), 1);
    assert_eq!(RingElement::ring_sub(1u128, 2u128), u128::MAX);
}

#[test]
fn positions_are_row_major() {
    let shape = vec![2, 3, 4];
    for k in 0..24 {
        let idx = unravel(&shape, k);
        assert_eq!(idx, vec![k / 12, k / 4 % 3, k % 4]);
        assert_eq!(offset(&shape, &idx), k);
    }
}

#[test]
fn shapes_broadcast_from_the_last_axis() {
    assert_eq!(broadcast_shape(&vec![2, 1], &vec![3]), vec![2, 3]);
    assert_eq!(broadcast_shape(&vec![], &vec![3, 0]), vec![3, 0]);
    let (shape, left, right) = zip_positions(&vec![2, 1], &vec![2]);
    assert_eq!((shape, left, right), (vec![2, 2], vec![0, 0, 1, 1], vec![0, 1, 0, 1]));
}

#[test]
fn subarrays_leave_out_an_axis() {
    let (shape, positions) = axis_positions(&vec![2, 3], 1, 2);
    assert_eq!((shape, positions), (vec![2], vec![2, 5]));
    let (shape, positions) = axis_positions(&vec![2, 3], 0, 1);
    assert_eq!((shape, positions), (vec![3], vec![3, 4, 5]));
}
