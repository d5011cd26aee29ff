use musapy_ops::broadcast::{broadcast_shape, broadcast_strides};
use musapy_ops::error::OpError;
use musapy_ops::kernels::{mock_offset_nd, mock_reduce_offset};
use musapy_ops::layout::Layout;
use musapy_ops::op_builder::{checked_offset_nd, cpu_offset_nd, cpu_reduce_offset};

fn bs(shapes: &[&[usize]]) -> Result<Vec<usize>, OpError> {
    let owned: Vec<Vec<usize>> = shapes.iter().map(|s| s.to_vec()).collect();
    broadcast_shape(&owned)
}

#[test]
fn shape_same() {
    assert_eq!(bs(&[&[2, 3], &[2, 3]]).unwrap(), vec![2, 3]);
}

#[test]
fn shape_3x1_plus_4() {
    assert_eq!(bs(&[&[3, 1], &[4]]).unwrap(), vec![3, 4]);
}

#[test]
fn shape_1x4_plus_3x1() {
    assert_eq!(bs(&[&[1, 4], &[3, 1]]).unwrap(), vec![3, 4]);
}

#[test]
fn shape_0dim_plus_any() {
    assert_eq!(bs(&[&[], &[5]]).unwrap(), vec![5]);
    assert_eq!(bs(&[&[], &[2, 3]]).unwrap(), vec![2, 3]);
    assert_eq!(bs(&[&[], &[]]).unwrap(), Vec::<usize>::new());
}

#[test]
fn shape_high_dim() {
    assert_eq!(bs(&[&[2, 1, 3], &[4, 1]]).unwrap(), vec![2, 4, 3]);
}

#[test]
fn shape_scalar_plus_scalar() {
    assert_eq!(bs(&[&[1], &[1]]).unwrap(), vec![1]);
}

#[test]
fn shape_incompatible() {
    assert!(bs(&[&[2, 3], &[4]]).is_err());
    assert!(bs(&[&[3], &[4]]).is_err());
    assert!(bs(&[&[2, 3], &[2, 4]]).is_err());
}

#[test]
fn shape_empty_input() {
    assert_eq!(bs(&[]).unwrap(), Vec::<usize>::new());
}

#[test]
fn shape_three_operands() {
    assert_eq!(bs(&[&[3, 1], &[1, 4], &[3, 4]]).unwrap(), vec![3, 4]);
}

#[test]
fn broadcast_error_kind_is_shape_mismatch() {
    assert_eq!(bs(&[&[2, 3], &[4]]), Err(OpError::ShapeMismatch));
}

#[test]
fn broadcast_commutes_on_examples() {
    assert_eq!(bs(&[&[2, 1, 3], &[4, 1]]), bs(&[&[4, 1], &[2, 1, 3]]));
    assert_eq!(bs(&[&[5, 1], &[1, 0]]), bs(&[&[1, 0], &[5, 1]]));
}

#[test]
fn broadcast_zero_dim_size() {
    assert_eq!(bs(&[&[0], &[1]]).unwrap(), vec![0]);
    assert!(bs(&[&[0], &[5]]).is_err());
}

// --- broadcast_strides ---

#[test]
fn strides_same_shape_contiguous() {
    let layout = Layout::from_shape(vec![2, 3]);
    assert_eq!(broadcast_strides(&layout, &[2, 3]), vec![3, 1]);
}

#[test]
fn strides_broadcast_dim() {
    let layout = Layout::from_shape(vec![3, 1]);
    assert_eq!(broadcast_strides(&layout, &[3, 4]), vec![1, 0]);
}

#[test]
fn strides_1d_to_2d() {
    let layout = Layout::from_shape(vec![4]);
    assert_eq!(broadcast_strides(&layout, &[3, 4]), vec![0, 1]);
}

#[test]
fn strides_0dim() {
    let layout = Layout::from_shape(vec![]);
    assert_eq!(broadcast_strides(&layout, &[3, 4]), vec![0, 0]);
    assert_eq!(broadcast_strides(&layout, &[5]), vec![0]);
    assert_eq!(broadcast_strides(&layout, &[]), Vec::<isize>::new());
}

#[test]
fn strides_high_dim() {
    let layout = Layout::from_shape(vec![4, 1]);
    assert_eq!(broadcast_strides(&layout, &[2, 4, 3]), vec![0, 1, 0]);
}

#[test]
fn strides_non_contiguous_input() {
    let layout = Layout::from_shape_and_strides(vec![3, 4], vec![1, 3]).unwrap();
    assert_eq!(broadcast_strides(&layout, &[3, 4]), vec![1, 3]);
}

#[test]
fn strides_non_contiguous_with_broadcast() {
    let layout = Layout::from_shape_and_strides(vec![1, 4], vec![0, 1]).unwrap();
    assert_eq!(broadcast_strides(&layout, &[3, 4]), vec![0, 1]);
}

#[test]
fn broadcast_does_not_depend_on_order() {
    let shapes: Vec<Vec<usize>> = vec![vec![3, 1], vec![1, 4], vec![3, 4]];
    let reordered: Vec<Vec<usize>> = vec![vec![3, 4], vec![3, 1], vec![1, 4]];
    assert_eq!(broadcast_shape(&shapes), broadcast_shape(&reordered));
    let bad: Vec<Vec<usize>> = vec![vec![2, 3], vec![4]];
    let bad_rev: Vec<Vec<usize>> = vec![vec![4], vec![2, 3]];
    assert_eq!(broadcast_shape(&bad), broadcast_shape(&bad_rev));
}

#[test]
fn strided_offsets_checked_and_unchecked() {
    assert_eq!(cpu_offset_nd(4, &[2, 3], &[3, 1]), 4);
    assert_eq!(cpu_offset_nd(4, &[2, 3], &[1, 2]), 3);
    assert_eq!(mock_offset_nd(4, &[2, 3], &[1, 2]), 3);
    assert_eq!(cpu_offset_nd(4, &[2, 3], &[-3, -1]), -4);
    assert_eq!(checked_offset_nd(4, &[2, 3], &[1, 2]), Some(3));
    assert_eq!(checked_offset_nd(5, &[2, 3], &[-3, -1]), Some(-5));
    assert_eq!(checked_offset_nd(0, &[2, 0], &[1, 1]), None);
    assert_eq!(checked_offset_nd(0, &[2, 3], &[1]), None);
    assert_eq!(checked_offset_nd(1, &[2], &[isize::MAX]), Some(isize::MAX));
    assert_eq!(checked_offset_nd(2, &[3], &[isize::MAX]), None);
    assert_eq!(checked_offset_nd(3, &[2, 2], &[isize::MAX, 1]), None);
}

#[test]
fn mock_and_cpu_reduce_offsets_agree() {
    use_reduce_offsets(&[2, 3, 4], &[12, 4, 1]);
    use_reduce_offsets(&[2, 3, 4], &[1, 2, 6]);
    use_reduce_offsets(&[3, 2], &[-2, -1]);
}

fn use_reduce_offsets(shape: &[usize], strides: &[isize]) {
    for axis in 0..shape.len() {
        let outs: usize = shape.iter().enumerate().filter(|(d, _)| *d != axis).map(|(_, s)| *s).product();
        for o in 0..outs {
            for k in 0..shape[axis] {
                assert_eq!(
                    mock_reduce_offset(o, shape, strides, axis, k),
                    cpu_reduce_offset(o, shape, strides, axis, k)
                );
            }
        }
    }
    assert_eq!(cpu_reduce_offset(1, &[2, 3, 4], &[12, 4, 1], 1, 2), 9);
    assert_eq!(cpu_reduce_offset(5, &[2, 3, 4], &[12, 4, 1], 1, 0), 13);
}
