use musapy_ops::array::ArrayDesc;
use musapy_ops::dtype::{Device, Dtype};
use musapy_ops::error::OpError;
use musapy_ops::layout::Layout;
use musapy_ops::reduction::{argmax, argmin, cumsum, max, mean, min, prod, resolve_axes, resolve_axis, sum};

fn desc(shape: &[usize], dtype: Dtype, buffer: u64) -> ArrayDesc {
    ArrayDesc { layout: Layout::from_shape(shape.to_vec()), dtype, device: Device::Cpu, buffer }
}

#[test]
fn resolve_axis_cases() {
    assert_eq!(resolve_axis(None, 3), Ok(None));
    assert_eq!(resolve_axis(Some(-1), 3), Ok(Some(2)));
    assert_eq!(resolve_axis(Some(2), 3), Ok(Some(2)));
    assert_eq!(resolve_axis(Some(3), 3), Err(OpError::ShapeMismatch));
    assert_eq!(resolve_axis(Some(-4), 3), Err(OpError::ShapeMismatch));
}

#[test]
fn resolve_axes_sorts_and_rejects_duplicates() {
    assert_eq!(resolve_axes(Some(&[2, 0]), 3), Ok(vec![0, 2]));
    assert_eq!(resolve_axes(Some(&[-1, 0]), 3), Ok(vec![0, 2]));
    assert_eq!(resolve_axes(Some(&[1, -2]), 3), Err(OpError::ShapeMismatch));
    assert_eq!(resolve_axes(Some(&[5]), 3), Err(OpError::ShapeMismatch));
    assert_eq!(resolve_axes(None, 3), Ok(vec![]));
}

#[test]
fn sum_shapes_and_dtypes() {
    let a = desc(&[2, 3, 4], Dtype::Int32, 1);
    let all = sum(&a, None, false, None).unwrap();
    assert_eq!(all.out_shape, Vec::<usize>::new());
    assert_eq!(all.out_dtype, Dtype::Int64);
    let one = sum(&a, Some(&[1]), false, None).unwrap();
    assert_eq!(one.out_shape, vec![2, 4]);
    let kept = sum(&a, Some(&[-1, 0]), true, None).unwrap();
    assert_eq!(kept.out_shape, vec![1, 3, 1]);
    assert_eq!(kept.axes, vec![0, 2]);
    let dropped = prod(&a, Some(&[2, 0]), false, None).unwrap();
    assert_eq!(dropped.out_shape, vec![3]);
    assert_eq!(dropped.squeeze, vec![0, 1]);
    let m = mean(&a, Some(&[0]), false, None).unwrap();
    assert_eq!(m.out_dtype, Dtype::Float64);
    let f = desc(&[2, 3], Dtype::Float32, 2);
    assert_eq!(max(&f, None, true, None).unwrap().out_shape, vec![1, 1]);
    assert_eq!(min(&f, Some(&[0]), false, None).unwrap().out_dtype, Dtype::Float32);
}

#[test]
fn reduction_errors() {
    let a = desc(&[2, 3], Dtype::Float32, 1);
    assert_eq!(sum(&a, Some(&[2]), false, None).err(), Some(OpError::ShapeMismatch));
    let out = desc(&[3], Dtype::Float32, 9);
    assert_eq!(sum(&a, Some(&[0, 1]), false, Some(&out)).err(), Some(OpError::ShapeMismatch));
    let c = desc(&[2], Dtype::Complex64, 2);
    assert_eq!(max(&c, None, false, None).err(), Some(OpError::DtypeUnsupported));
    assert!(sum(&c, None, false, None).is_ok());
    let alias = desc(&[3], Dtype::Float32, 1);
    assert_eq!(sum(&a, Some(&[0]), false, Some(&alias)).err(), Some(OpError::AliasDetected));
}

#[test]
fn argmax_multi_axis() {
    let a = desc(&[2, 3, 4], Dtype::Float32, 1);
    let p = argmax(&a, Some(&[0, 2]), false, None).unwrap();
    assert_eq!(p.out_shape, vec![3]);
    assert_eq!(p.out_dtype, Dtype::Int64);
    assert_eq!(p.perm, vec![1, 0, 2]);
    assert_eq!(p.kernel_shape, vec![3, 8]);
    assert_eq!(p.axis_len, 8);
    assert!(p.materialize);
    let k = argmin(&a, Some(&[0, 2]), true, None).unwrap();
    assert_eq!(k.out_shape, vec![1, 3, 1]);
    let tail = argmax(&a, Some(&[1, 2]), false, None).unwrap();
    assert!(!tail.materialize);
    assert_eq!(tail.kernel_shape, vec![2, 12]);
    let single = argmax(&a, Some(&[1]), false, None).unwrap();
    assert_eq!(single.out_shape, vec![2, 4]);
    let c = desc(&[2, 2], Dtype::Complex64, 2);
    assert_eq!(argmax(&c, Some(&[0, 1]), false, None).err(), Some(OpError::DtypeUnsupported));
}

#[test]
fn cumsum_plans() {
    let a = desc(&[2, 3], Dtype::Int32, 1);
    let flat = cumsum(&a, None, None).unwrap();
    assert_eq!(flat.out_shape, vec![6]);
    assert_eq!(flat.dtype, Dtype::Int64);
    let along = cumsum(&a, Some(-1), None).unwrap();
    assert_eq!(along.out_shape, vec![2, 3]);
    assert_eq!(cumsum(&a, Some(2), None).err(), Some(OpError::ShapeMismatch));
}

#[test]
fn axis_order_does_not_change_reduction() {
    let a = desc(&[2, 3, 4], Dtype::Float32, 3);
    for keepdims in [false, true] {
        let p1 = sum(&a, Some(&[2, 0]), keepdims, None).unwrap();
        let p2 = sum(&a, Some(&[0, -1]), keepdims, None).unwrap();
        assert_eq!(p1.axes, p2.axes);
        assert_eq!(p1.out_shape, p2.out_shape);
        assert_eq!(p1.squeeze, p2.squeeze);
        assert_eq!(p1.out_dtype, p2.out_dtype);
        let q1 = argmax(&a, Some(&[1, 0]), keepdims, None).unwrap();
        let q2 = argmax(&a, Some(&[-3, -2]), keepdims, None).unwrap();
        assert_eq!(q1.out_shape, q2.out_shape);
        assert_eq!(q1.perm, q2.perm);
        assert_eq!(q1.kernel_shape, q2.kernel_shape);
    }
}

#[test]
fn keepdims_keeps_rank() {
    let a = desc(&[2, 3, 4], Dtype::Float64, 4);
    assert_eq!(sum(&a, None, true, None).unwrap().out_shape, vec![1, 1, 1]);
    assert_eq!(sum(&a, Some(&[1]), true, None).unwrap().out_shape, vec![2, 1, 4]);
    assert_eq!(max(&a, Some(&[0, 2]), true, None).unwrap().out_shape, vec![1, 3, 1]);
    assert_eq!(argmax(&a, Some(&[2, 1]), true, None).unwrap().out_shape, vec![2, 1, 1]);
    assert_eq!(argmin(&a, None, true, None).unwrap().out_shape, vec![1, 1, 1]);
}

#[test]
fn arg_reduce_kernel_parameters() {
    let a = desc(&[2, 3, 4], Dtype::Float32, 1);
    let one = argmax(&a, Some(&[1]), false, None).unwrap();
    assert_eq!(one.kernel_shape, vec![2, 3, 4]);
    assert_eq!(one.kernel_axis, 1);
    assert_eq!(one.axis_len, 3);
    assert!(!one.materialize);
    assert!(one.perm.is_empty());
    let all = argmin(&a, None, false, None).unwrap();
    assert_eq!(all.kernel_shape, vec![24]);
    assert_eq!(all.kernel_axis, 0);
    assert_eq!(all.axis_len, 24);
    assert!(!all.materialize);
    let two = argmax(&a, Some(&[0, 2]), false, None).unwrap();
    assert_eq!(two.kernel_axis, 1);
    assert_eq!(two.axis_len, 8);
}

#[test]
fn cumsum_kernel_parameters() {
    let a = desc(&[2, 3], Dtype::Int32, 1);
    let flat = cumsum(&a, None, None).unwrap();
    assert_eq!(flat.kernel_shape, vec![6]);
    assert_eq!(flat.kernel_axis, 0);
    assert_eq!(flat.axis_len, 6);
    assert_eq!(flat.out_size, 6);
    assert!(!flat.materialize);
    let last = cumsum(&a, Some(-1), None).unwrap();
    assert_eq!(last.kernel_shape, vec![2, 3]);
    assert_eq!(last.kernel_axis, 1);
    assert_eq!(last.axis_len, 3);
    let first = cumsum(&a, Some(0), None).unwrap();
    assert_eq!(first.kernel_axis, 0);
    assert_eq!(first.axis_len, 2);
    assert!(!first.materialize);
}

#[test]
fn cumsum_rejects_overlong_gpu_rows() {
    let n = 256usize * 256 * 256;
    let ok = ArrayDesc { layout: Layout::from_shape(vec![n]), dtype: Dtype::Float32, device: Device::Musa(0), buffer: 1 };
    assert!(cumsum(&ok, Some(0), None).is_ok());
    let long = ArrayDesc { layout: Layout::from_shape(vec![n + 1]), dtype: Dtype::Float32, device: Device::Musa(0), buffer: 2 };
    assert_eq!(cumsum(&long, Some(0), None).err(), Some(OpError::ShapeMismatch));
    let host = ArrayDesc { layout: Layout::from_shape(vec![n + 1]), dtype: Dtype::Float32, device: Device::Cpu, buffer: 3 };
    assert!(cumsum(&host, Some(0), None).is_ok());
}

#[test]
fn squeeze_positions_of_multi_axis_reduction() {
    let a = desc(&[2, 3, 4, 5], Dtype::Float32, 1);
    let p = sum(&a, Some(&[1, 3]), false, None).unwrap();
    assert_eq!(p.out_shape, vec![2, 4]);
    assert_eq!(p.squeeze, vec![1, 2]);
    let k = sum(&a, Some(&[1, 3]), true, None).unwrap();
    assert!(k.squeeze.is_empty());
}
