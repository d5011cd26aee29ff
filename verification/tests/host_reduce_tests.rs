use std::sync::Arc;

use musapy_ops::dtype::{Device, Dtype};
use musapy_ops::error::OpError;
use musapy_ops::host_reduce::{arg_reduce_multi_int64, cumsum_int64, reduce_int64};
use musapy_ops::indexing::{transpose, HostArray};
use musapy_ops::layout::Layout;
use musapy_ops::linalg::to_column_major;
use musapy_ops::op_builder::ReduceKernel;

fn i64_array(vals: &[i64], shape: Vec<usize>) -> HostArray {
    let bytes: Vec<u8> = vals.iter().flat_map(|v| v.to_le_bytes()).collect();
    HostArray { layout: Layout::from_shape(shape), dtype: Dtype::Int64, device: Device::Cpu, data: Arc::new(bytes) }
}

fn read_i64(a: &HostArray) -> Vec<i64> {
    a.data.chunks(8).map(|c| i64::from_le_bytes(c.try_into().unwrap())).collect()
}

#[test]
fn reduce_int64_along_axes() {
    // [[1, 5, 3], [4, 2, 6]]
    let a = i64_array(&[1, 5, 3, 4, 2, 6], vec![2, 3]);
    let s0 = reduce_int64(&a, Some(0), false, ReduceKernel::Sum).unwrap();
    assert_eq!(s0.layout.shape, vec![3]);
    assert_eq!(read_i64(&s0), vec![5, 7, 9]);
    let s1 = reduce_int64(&a, Some(1), true, ReduceKernel::Sum).unwrap();
    assert_eq!(s1.layout.shape, vec![2, 1]);
    assert_eq!(read_i64(&s1), vec![9, 12]);
    let p = reduce_int64(&a, Some(1), false, ReduceKernel::Prod).unwrap();
    assert_eq!(read_i64(&p), vec![15, 48]);
    let mx = reduce_int64(&a, Some(0), false, ReduceKernel::Max).unwrap();
    assert_eq!(read_i64(&mx), vec![4, 5, 6]);
    let mn = reduce_int64(&a, Some(1), false, ReduceKernel::Min).unwrap();
    assert_eq!(read_i64(&mn), vec![1, 2]);
    let am = reduce_int64(&a, Some(1), false, ReduceKernel::Argmax).unwrap();
    assert_eq!(read_i64(&am), vec![1, 2]);
    let an = reduce_int64(&a, Some(0), false, ReduceKernel::Argmin).unwrap();
    assert_eq!(read_i64(&an), vec![0, 1, 0]);
}

#[test]
fn reduce_int64_over_all_elements() {
    let a = i64_array(&[1, 5, 3, 4, 2, 6], vec![2, 3]);
    let s = reduce_int64(&a, None, false, ReduceKernel::Sum).unwrap();
    assert_eq!(s.layout.shape, Vec::<usize>::new());
    assert_eq!(read_i64(&s), vec![21]);
    let k = reduce_int64(&a, None, true, ReduceKernel::Argmax).unwrap();
    assert_eq!(k.layout.shape, vec![1, 1]);
    assert_eq!(read_i64(&k), vec![5]);
    assert_eq!(reduce_int64(&a, Some(2), false, ReduceKernel::Sum).err(), Some(OpError::ShapeMismatch));
}

#[test]
fn argmax_returns_first_maximum() {
    let a = i64_array(&[3, 7, 7, 1, 7], vec![5]);
    assert_eq!(read_i64(&reduce_int64(&a, Some(0), false, ReduceKernel::Argmax).unwrap()), vec![1]);
    assert_eq!(read_i64(&reduce_int64(&a, None, false, ReduceKernel::Argmin).unwrap()), vec![3]);
}

#[test]
fn reduce_int64_on_transposed_view() {
    let a = i64_array(&[1, 2, 3, 4, 5, 6], vec![2, 3]);
    let t = transpose(&a, None).unwrap();
    let s = reduce_int64(&t, Some(1), false, ReduceKernel::Sum).unwrap();
    assert_eq!(read_i64(&s), vec![5, 7, 9]);
}

#[test]
fn cumsum_int64_running_sums() {
    let a = i64_array(&[1, 2, 3, 4, 5, 6], vec![2, 3]);
    let flat = cumsum_int64(&a, None).unwrap();
    assert_eq!(flat.layout.shape, vec![6]);
    assert_eq!(read_i64(&flat), vec![1, 3, 6, 10, 15, 21]);
    let rows = cumsum_int64(&a, Some(1)).unwrap();
    assert_eq!(rows.layout.shape, vec![2, 3]);
    assert_eq!(read_i64(&rows), vec![1, 3, 6, 4, 9, 15]);
    let cols = cumsum_int64(&a, Some(0)).unwrap();
    assert_eq!(read_i64(&cols), vec![1, 2, 3, 5, 7, 9]);
    assert_eq!(cumsum_int64(&a, Some(2)).err(), Some(OpError::ShapeMismatch));
}

#[test]
fn column_major_reordering_round_trips() {
    // 2 x 3 matrix of 2-byte elements
    let src: Vec<u8> = (0u8..12).collect();
    let cm = to_column_major(&src, 2, 3, 2);
    assert_eq!(cm, vec![0, 1, 6, 7, 2, 3, 8, 9, 4, 5, 10, 11]);
    let back = to_column_major(&cm, 3, 2, 2);
    assert_eq!(back, src);
}

#[test]
fn sum_one_axis_at_a_time_matches_total() {
    let a = i64_array(&[3, -1, 4, 1, -5, 9, 2, 6], vec![2, 2, 2]);
    let last = reduce_int64(&a, Some(2), false, ReduceKernel::Sum).unwrap();
    let then_all = reduce_int64(&last, None, false, ReduceKernel::Sum).unwrap();
    let all = reduce_int64(&a, None, false, ReduceKernel::Sum).unwrap();
    assert_eq!(read_i64(&then_all), read_i64(&all));
    assert_eq!(read_i64(&all), vec![19]);
}

#[test]
fn reduce_int64_widens_narrow_integers() {
    let vals: [i32; 4] = [-3, 7, 2, -8];
    let bytes: Vec<u8> = vals.iter().flat_map(|v| v.to_le_bytes()).collect();
    let a = HostArray { layout: Layout::from_shape(vec![4]), dtype: Dtype::Int32, device: Device::Cpu, data: Arc::new(bytes) };
    let s = reduce_int64(&a, None, false, ReduceKernel::Sum).unwrap();
    assert_eq!(s.dtype, Dtype::Int64);
    assert_eq!(read_i64(&s), vec![-2]);
    let m = reduce_int64(&a, Some(0), false, ReduceKernel::Min).unwrap();
    assert_eq!(read_i64(&m), vec![-8]);
    let u = HostArray { layout: Layout::from_shape(vec![3]), dtype: Dtype::Uint8, device: Device::Cpu, data: Arc::new(vec![200, 100, 50]) };
    assert_eq!(read_i64(&cumsum_int64(&u, None).unwrap()), vec![200, 300, 350]);
}

#[test]
fn arg_reduce_over_several_axes_gives_flat_index() {
    // shape [2, 3, 2]; element (i, j, k) at i * 6 + j * 2 + k
    let a = i64_array(&[5, 1, 7, 7, 0, 2, 3, 9, 7, 1, 2, 2], vec![2, 3, 2]);
    let am = arg_reduce_multi_int64(&a, &[0, 2], false, ReduceKernel::Argmax);
    assert_eq!(am.layout.shape, vec![3]);
    assert_eq!(read_i64(&am), vec![3, 0, 1]);
    let an = arg_reduce_multi_int64(&a, &[0, 2], false, ReduceKernel::Argmin);
    assert_eq!(read_i64(&an), vec![1, 3, 0]);
    let kept = arg_reduce_multi_int64(&a, &[0, 2], true, ReduceKernel::Argmax);
    assert_eq!(kept.layout.shape, vec![1, 3, 1]);
    assert_eq!(read_i64(&kept), vec![3, 0, 1]);
    let tail = arg_reduce_multi_int64(&a, &[1, 2], false, ReduceKernel::Argmax);
    assert_eq!(tail.layout.shape, vec![2]);
    assert_eq!(read_i64(&tail), vec![2, 1]);
    let all = arg_reduce_multi_int64(&a, &[0, 1, 2], false, ReduceKernel::Argmax);
    assert_eq!(all.layout.shape, Vec::<usize>::new());
    assert_eq!(read_i64(&all), vec![7]);
    let flat = reduce_int64(&a, None, false, ReduceKernel::Argmax).unwrap();
    assert_eq!(read_i64(&all), read_i64(&flat));
    let one = arg_reduce_multi_int64(&a, &[1], false, ReduceKernel::Argmin);
    let single = reduce_int64(&a, Some(1), false, ReduceKernel::Argmin).unwrap();
    assert_eq!(read_i64(&one), read_i64(&single));
}

#[test]
fn arg_reduce_over_several_axes_of_a_transposed_view() {
    let a = i64_array(&[5, 1, 7, 7, 0, 2, 3, 9, 7, 1, 2, 2], vec![2, 3, 2]);
    let t = transpose(&a, Some(&[2, 1, 0])).unwrap();
    // t has shape [2, 3, 2] with t(k, j, i) = a(i, j, k); over axes 0 and 2 the flat
    // index is k * 2 + i
    let am = arg_reduce_multi_int64(&t, &[0, 2], false, ReduceKernel::Argmax);
    assert_eq!(read_i64(&am), vec![3, 0, 1]);
}
