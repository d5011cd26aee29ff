use std::sync::Arc;

use musapy_ops::creation::zeros;
use musapy_ops::dtype::{Device, Dtype};
use musapy_ops::error::OpError;
use musapy_ops::indexing::{
    adv_index, b_shape_size, boolean_mask, check_indices_bounds, contiguous, flip, gather,
    index_select, permute, reshape_merge_last, reshape_split_last, scatter, slice, transpose,
    HostArray, SliceSpec,
};
use musapy_ops::layout::Layout;

fn make_array(shape: Vec<usize>) -> HostArray {
    zeros(&shape, Some(Dtype::Float32), Device::Cpu).unwrap()
}

fn array_with_layout(bytes: Vec<u8>, layout: Layout, dtype: Dtype) -> HostArray {
    HostArray { layout, dtype, device: Device::Cpu, data: Arc::new(bytes) }
}

fn f32_array(vals: &[f32], shape: Vec<usize>) -> HostArray {
    let bytes: Vec<u8> = vals.iter().flat_map(|v| v.to_le_bytes()).collect();
    array_with_layout(bytes, Layout::from_shape(shape), Dtype::Float32)
}

fn i64_array(vals: &[i64], shape: Vec<usize>) -> HostArray {
    let bytes: Vec<u8> = vals.iter().flat_map(|v| v.to_le_bytes()).collect();
    array_with_layout(bytes, Layout::from_shape(shape), Dtype::Int64)
}

fn size(a: &HostArray) -> usize {
    a.layout.shape.iter().product()
}

/// Reads a row-major f32 array from the start of its buffer.
fn read_f32(a: &HostArray) -> Vec<f32> {
    let n = size(a);
    (0..n)
        .map(|i| f32::from_le_bytes(a.data[i * 4..i * 4 + 4].try_into().unwrap()))
        .collect()
}

// --- transpose ---

#[test]
fn transpose_2d_default() {
    let a = make_array(vec![2, 3]);
    let t = transpose(&a, None).unwrap();
    assert_eq!(t.layout.shape, vec![3, 2]);
    assert_eq!(t.layout.strides, vec![1, 3]);
    assert!(Arc::ptr_eq(&a.data, &t.data));
}

#[test]
fn transpose_with_axes() {
    let a = make_array(vec![2, 3, 4]);
    let t = transpose(&a, Some(&[1, 0, 2])).unwrap();
    assert_eq!(t.layout.shape, vec![3, 2, 4]);
    assert_eq!(t.layout.strides, vec![4, 12, 1]);
}

#[test]
fn transpose_invalid_axes() {
    let a = make_array(vec![2, 3]);
    assert!(transpose(&a, Some(&[0, 0])).is_err());
    assert!(transpose(&a, Some(&[0, 2])).is_err());
}

// --- permute ---

#[test]
fn permute_basic() {
    let a = make_array(vec![2, 3, 4]);
    let p = permute(&a, &[2, 0, 1]).unwrap();
    assert_eq!(p.layout.shape, vec![4, 2, 3]);
    assert_eq!(p.layout.strides, vec![1, 12, 4]);
}

// --- flip ---

#[test]
fn flip_axis0() {
    let a = make_array(vec![3, 4]);
    let f = flip(&a, 0).unwrap();
    assert_eq!(f.layout.shape, vec![3, 4]);
    assert_eq!(f.layout.strides, vec![-4, 1]);
    assert_eq!(f.layout.offset, 8);
}

#[test]
fn flip_axis1() {
    let a = make_array(vec![3, 4]);
    let f = flip(&a, 1).unwrap();
    assert_eq!(f.layout.shape, vec![3, 4]);
    assert_eq!(f.layout.strides, vec![4, -1]);
    assert_eq!(f.layout.offset, 3);
}

#[test]
fn flip_out_of_bounds() {
    let a = make_array(vec![3, 4]);
    assert!(flip(&a, 2).is_err());
}

// --- slice ---

#[test]
fn slice_1d() {
    let a = make_array(vec![10]);
    let s = slice(&a, &[SliceSpec { start: 2, stop: 7, step: 1 }]).unwrap();
    assert_eq!(s.layout.shape, vec![5]);
    assert_eq!(s.layout.offset, 2);
}

#[test]
fn slice_2d_with_step() {
    let a = make_array(vec![4, 6]);
    let s = slice(
        &a,
        &[SliceSpec { start: 1, stop: 3, step: 1 }, SliceSpec { start: 0, stop: 6, step: 2 }],
    )
    .unwrap();
    assert_eq!(s.layout.shape, vec![2, 3]);
    assert_eq!(s.layout.strides, vec![6, 2]);
    assert_eq!(s.layout.offset, 6);
}

// --- index_select ---

#[test]
fn index_select_axis0() {
    let a = make_array(vec![3, 4]);
    let s = index_select(&a, 0, 1).unwrap();
    assert_eq!(s.layout.shape, vec![4]);
    assert_eq!(s.layout.offset, 4);
}

#[test]
fn index_select_axis1() {
    let a = make_array(vec![3, 4]);
    let s = index_select(&a, 1, 2).unwrap();
    assert_eq!(s.layout.shape, vec![3]);
    assert_eq!(s.layout.strides, vec![4]);
    assert_eq!(s.layout.offset, 2);
}

#[test]
fn index_select_out_of_bounds() {
    let a = make_array(vec![3, 4]);
    assert!(index_select(&a, 0, 3).is_err());
    assert!(index_select(&a, 1, 4).is_err());
    assert!(index_select(&a, 2, 0).is_err());
}

// --- contiguous ---

#[test]
fn contiguous_already_contiguous_is_zero_copy() {
    let a = f32_array(&[1.0, 2.0, 3.0, 4.0], vec![2, 2]);
    let c = contiguous(&a);
    assert!(Arc::ptr_eq(&a.data, &c.data));
    assert_eq!(read_f32(&c), vec![1.0, 2.0, 3.0, 4.0]);
}

#[test]
fn contiguous_transposed_view_materializes() {
    let a = f32_array(&[1.0, 2.0, 3.0, 4.0, 5.0, 6.0], vec![2, 3]);
    let t = transpose(&a, None).unwrap();
    let c = contiguous(&t);
    assert_eq!(c.layout.shape, vec![3, 2]);
    assert!(c.layout.is_contiguous());
    assert!(!Arc::ptr_eq(&a.data, &c.data));
    assert_eq!(read_f32(&c), vec![1.0, 4.0, 2.0, 5.0, 3.0, 6.0]);
}

#[test]
fn contiguous_offset_slice_materializes() {
    let vals: Vec<f32> = (10..20).map(|v| v as f32).collect();
    let a = f32_array(&vals, vec![10]);
    let s = slice(&a, &[SliceSpec { start: 2, stop: 5, step: 1 }]).unwrap();
    assert_eq!(s.layout.offset, 2);
    let c = contiguous(&s);
    assert!(c.layout.is_contiguous());
    assert_eq!(read_f32(&c), vec![12.0, 13.0, 14.0]);
}

#[test]
fn contiguous_flipped_view_materializes() {
    let a = f32_array(&[1.0, 2.0, 3.0, 4.0, 5.0, 6.0], vec![2, 3]);
    let f = flip(&a, 1).unwrap();
    let c = contiguous(&f);
    assert!(c.layout.is_contiguous());
    assert_eq!(read_f32(&c), vec![3.0, 2.0, 1.0, 6.0, 5.0, 4.0]);
}

// --- gather ---

#[test]
fn gather_2d_axis0() {
    let a = f32_array(&[1.0, 2.0, 3.0, 4.0, 5.0, 6.0], vec![2, 3]);
    let idx = i64_array(&[1, 0], vec![2]);
    let g = gather(&a, &idx, 0).unwrap();
    assert_eq!(g.layout.shape, vec![2, 3]);
    assert_eq!(read_f32(&g), vec![4.0, 5.0, 6.0, 1.0, 2.0, 3.0]);
}

#[test]
fn gather_2d_axis1() {
    let a = f32_array(&[1.0, 2.0, 3.0, 4.0, 5.0, 6.0], vec![2, 3]);
    let idx = i64_array(&[0, 2], vec![2]);
    let g = gather(&a, &idx, 1).unwrap();
    assert_eq!(g.layout.shape, vec![2, 2]);
    assert_eq!(read_f32(&g), vec![1.0, 3.0, 4.0, 6.0]);
}

#[test]
fn gather_1d() {
    let a = f32_array(&[10.0, 20.0, 30.0, 40.0], vec![4]);
    let idx = i64_array(&[3, 1, 3], vec![3]);
    let g = gather(&a, &idx, 0).unwrap();
    assert_eq!(g.layout.shape, vec![3]);
    assert_eq!(read_f32(&g), vec![40.0, 20.0, 40.0]);
}

#[test]
fn gather_3d_middle_axis() {
    let vals: Vec<f32> = (0..12).map(|v| v as f32).collect();
    let a = f32_array(&vals, vec![2, 3, 2]);
    let idx = i64_array(&[2, 0], vec![2]);
    let g = gather(&a, &idx, 1).unwrap();
    assert_eq!(g.layout.shape, vec![2, 2, 2]);
    assert_eq!(read_f32(&g), vec![4.0, 5.0, 0.0, 1.0, 10.0, 11.0, 6.0, 7.0]);
}

#[test]
fn gather_errors() {
    let a = f32_array(&[1.0, 2.0, 3.0, 4.0], vec![2, 2]);
    let idx = i64_array(&[0], vec![1]);
    assert!(gather(&a, &idx, 2).is_err());
    let idx_2d = i64_array(&[0, 1], vec![1, 2]);
    assert!(gather(&a, &idx_2d, 0).is_err());
    let idx_f32 = f32_array(&[0.0], vec![1]);
    assert!(gather(&a, &idx_f32, 0).is_err());
    let idx_oob = i64_array(&[0, 2], vec![2]);
    assert!(gather(&a, &idx_oob, 0).is_err());
}

// --- scatter ---

#[test]
fn scatter_2d_axis0() {
    let a = f32_array(&[1.0, 2.0, 3.0, 4.0], vec![2, 2]);
    let idx = i64_array(&[1], vec![1]);
    let vals = f32_array(&[10.0, 11.0], vec![1, 2]);
    let s = scatter(&a, &idx, &vals, 0).unwrap();
    assert_eq!(s.layout.shape, vec![2, 2]);
    assert_eq!(read_f32(&s), vec![1.0, 2.0, 10.0, 11.0]);
    assert_eq!(read_f32(&a), vec![1.0, 2.0, 3.0, 4.0]);
}

#[test]
fn scatter_2d_axis1() {
    let a = f32_array(&[1.0, 2.0, 3.0, 4.0, 5.0, 6.0], vec![2, 3]);
    let idx = i64_array(&[0, 2], vec![2]);
    let vals = f32_array(&[7.0, 8.0, 9.0, 10.0], vec![2, 2]);
    let s = scatter(&a, &idx, &vals, 1).unwrap();
    assert_eq!(read_f32(&s), vec![7.0, 2.0, 8.0, 9.0, 5.0, 10.0]);
}

#[test]
fn scatter_errors() {
    let a = f32_array(&[1.0, 2.0, 3.0, 4.0], vec![2, 2]);
    let idx = i64_array(&[0], vec![1]);
    let vals = f32_array(&[10.0, 11.0], vec![1, 2]);
    assert!(scatter(&a, &idx, &vals, 2).is_err());
    let vals_bad = f32_array(&[10.0, 11.0], vec![2, 1]);
    assert!(scatter(&a, &idx, &vals_bad, 0).is_err());
    let vals_i64 = i64_array(&[10, 11], vec![1, 2]);
    assert!(scatter(&a, &idx, &vals_i64, 0).is_err());
    let idx_oob = i64_array(&[2], vec![1]);
    assert!(scatter(&a, &idx_oob, &vals, 0).is_err());
}

// --- views combined with copies ---

#[test]
fn gather_on_flipped_view() {
    let a = f32_array(&[1.0, 2.0, 3.0, 4.0], vec![2, 2]);
    let f = flip(&a, 1).unwrap();
    let idx = i64_array(&[1], vec![1]);
    let g = gather(&f, &idx, 0).unwrap();
    assert_eq!(read_f32(&g), vec![4.0, 3.0]);
}

#[test]
fn scatter_on_offset_view() {
    let a = f32_array(&[10.0, 11.0, 12.0, 13.0, 14.0], vec![5]);
    let s = slice(&a, &[SliceSpec { start: 1, stop: 4, step: 1 }]).unwrap();
    let idx = i64_array(&[1], vec![1]);
    let vals = f32_array(&[99.0], vec![1]);
    let r = scatter(&s, &idx, &vals, 0).unwrap();
    assert_eq!(read_f32(&r), vec![11.0, 99.0, 13.0]);
    assert_eq!(read_f32(&a), vec![10.0, 11.0, 12.0, 13.0, 14.0]);
}

// --- further cases ---

#[test]
fn gather_error_kinds() {
    let a = f32_array(&[1.0, 2.0, 3.0, 4.0], vec![2, 2]);
    let idx = i64_array(&[0], vec![1]);
    assert_eq!(gather(&a, &idx, 2).err(), Some(OpError::ShapeMismatch));
    let idx_f32 = f32_array(&[0.0], vec![1]);
    assert_eq!(gather(&a, &idx_f32, 0).err(), Some(OpError::DtypeUnsupported));
    let idx_neg = i64_array(&[-1], vec![1]);
    assert_eq!(gather(&a, &idx_neg, 0).err(), Some(OpError::ShapeMismatch));
}

#[test]
fn scatter_duplicate_indices_keep_one_written_value() {
    let a = f32_array(&[0.0, 0.0, 0.0], vec![3]);
    let idx = i64_array(&[1, 1], vec![2]);
    let vals = f32_array(&[5.0, 6.0], vec![2]);
    let r = read_f32(&scatter(&a, &idx, &vals, 0).unwrap());
    assert_eq!(r[0], 0.0);
    assert!(r[1] == 5.0 || r[1] == 6.0);
    assert_eq!(r[2], 0.0);
}

#[test]
fn scatter_of_gathered_values_restores_input() {
    let a = f32_array(&[1.0, 2.0, 3.0, 4.0, 5.0, 6.0], vec![2, 3]);
    let idx = i64_array(&[2, 0, 2, 2], vec![4]);
    let g = gather(&a, &idx, 1).unwrap();
    assert_eq!(g.layout.shape, vec![2, 4]);
    let r = scatter(&a, &idx, &g, 1).unwrap();
    assert_eq!(r.layout.shape, vec![2, 3]);
    assert_eq!(read_f32(&r), vec![1.0, 2.0, 3.0, 4.0, 5.0, 6.0]);
    let rows = i64_array(&[1, 1], vec![2]);
    let g0 = gather(&a, &rows, 0).unwrap();
    assert_eq!(read_f32(&scatter(&a, &rows, &g0, 0).unwrap()), vec![1.0, 2.0, 3.0, 4.0, 5.0, 6.0]);
}

#[test]
fn scatter_device_mismatch_is_dtype_error() {
    let a = f32_array(&[0.0, 0.0], vec![2]);
    let idx = i64_array(&[0], vec![1]);
    let mut vals = f32_array(&[1.0], vec![1]);
    vals.device = Device::Musa(0);
    assert_eq!(scatter(&a, &idx, &vals, 0).err(), Some(OpError::DtypeUnsupported));
}

#[test]
fn check_indices_bounds_cases() {
    assert_eq!(check_indices_bounds(&[0, 1, 2], 3), Ok(()));
    assert_eq!(check_indices_bounds(&[0, 3], 3), Err(OpError::ShapeMismatch));
    assert_eq!(check_indices_bounds(&[-1], 3), Err(OpError::ShapeMismatch));
    assert_eq!(check_indices_bounds(&[], 0), Ok(()));
}

#[test]
fn transpose_twice_restores_layout() {
    let a = make_array(vec![2, 3, 4]);
    let t = transpose(&a, Some(&[2, 0, 1])).unwrap();
    let back = transpose(&t, Some(&[1, 2, 0])).unwrap();
    assert_eq!(back.layout.shape, a.layout.shape);
    assert_eq!(back.layout.strides, a.layout.strides);
    assert_eq!(back.layout.offset, a.layout.offset);
}

#[test]
fn flip_twice_restores_layout() {
    let a = make_array(vec![3, 4]);
    let f = flip(&a, 1).unwrap();
    let back = flip(&f, 1).unwrap();
    assert_eq!(back.layout.strides, a.layout.strides);
    assert_eq!(back.layout.offset, a.layout.offset);
}

#[test]
fn reshape_merge_and_split_last() {
    let a = make_array(vec![2, 3, 4]);
    let m = reshape_merge_last(&a, 2).unwrap();
    assert_eq!(m.layout.shape, vec![2, 12]);
    assert_eq!(m.layout.strides, vec![12, 1]);
    assert!(reshape_merge_last(&a, 4).is_err());
    let t = transpose(&a, None).unwrap();
    assert!(reshape_merge_last(&t, 2).is_err());
    let b = make_array(vec![5, 1]);
    let s = reshape_split_last(&b, 3).unwrap();
    assert_eq!(s.layout.shape, vec![5, 1, 1, 1]);
    assert!(reshape_split_last(&a, 2).is_err());
    let same = reshape_split_last(&a, 1).unwrap();
    assert_eq!(same.layout.shape, vec![2, 3, 4]);
}

fn bool_array(vals: &[bool], shape: Vec<usize>) -> HostArray {
    let bytes: Vec<u8> = vals.iter().map(|&v| v as u8).collect();
    array_with_layout(bytes, Layout::from_shape(shape), Dtype::Bool)
}

fn arange_f32(n: usize, shape: Vec<usize>) -> HostArray {
    let vals: Vec<f32> = (0..n).map(|i| i as f32).collect();
    f32_array(&vals, shape)
}

// --- advanced indexing ---

#[test]
fn adv_index_two_arrays_pick_points() {
    // a = [[0,1,2],[3,4,5],[6,7,8]]; a[[0,2],[1,-1]] = [1, 8]
    let a = arange_f32(9, vec![3, 3]);
    let i0 = i64_array(&[0, 2], vec![2]);
    let i1 = i64_array(&[1, -1], vec![2]);
    let r = adv_index(&a, &[&i0, &i1]).unwrap();
    assert_eq!(r.layout.shape, vec![2]);
    assert_eq!(read_f32(&r), vec![1.0, 8.0]);
}

#[test]
fn adv_index_one_array_keeps_rest() {
    // a[[2,0]] on a 3x2 array takes rows 2 and 0
    let a = arange_f32(6, vec![3, 2]);
    let i0 = i64_array(&[2, 0], vec![2]);
    let r = adv_index(&a, &[&i0]).unwrap();
    assert_eq!(r.layout.shape, vec![2, 2]);
    assert_eq!(read_f32(&r), vec![4.0, 5.0, 0.0, 1.0]);
}

#[test]
fn adv_index_broadcasts_index_shapes() {
    // index shapes (2,1) and (3,) broadcast to (2,3): r[p][q] = a[i0[p]][i1[q]]
    let a = arange_f32(12, vec![3, 4]);
    let i0 = i64_array(&[0, 2], vec![2, 1]);
    let i1 = i64_array(&[1, 2, 3], vec![3]);
    let r = adv_index(&a, &[&i0, &i1]).unwrap();
    assert_eq!(r.layout.shape, vec![2, 3]);
    assert_eq!(read_f32(&r), vec![1.0, 2.0, 3.0, 9.0, 10.0, 11.0]);
}

#[test]
fn adv_index_paired_broadcast_2x3() {
    let a = f32_array(&[1.0, 2.0, 3.0, 4.0, 5.0, 6.0], vec![2, 3]);
    let i0 = i64_array(&[0, 1], vec![2, 1]);
    let i1 = i64_array(&[0, 1, 2], vec![3]);
    let r = adv_index(&a, &[&i0, &i1]).unwrap();
    assert_eq!(r.layout.shape, vec![2, 3]);
    assert_eq!(read_f32(&r), vec![1.0, 2.0, 3.0, 4.0, 5.0, 6.0]);
}

#[test]
fn adv_index_full_size_and_single_entry_indices() {
    // a (2,2) index array of the full broadcast size is read at each output
    // position; a single entry is broadcast
    let a = arange_f32(12, vec![3, 4]);
    let i0 = i64_array(&[0, 1, 2, 0], vec![2, 2]);
    let i1 = i64_array(&[3], vec![1]);
    let r = adv_index(&a, &[&i0, &i1]).unwrap();
    assert_eq!(r.layout.shape, vec![2, 2]);
    assert_eq!(read_f32(&r), vec![3.0, 7.0, 11.0, 3.0]);
}

#[test]
fn adv_index_errors() {
    let a = arange_f32(6, vec![3, 2]);
    let good = i64_array(&[0], vec![1]);
    assert_eq!(adv_index(&a, &[]).err(), Some(OpError::ShapeMismatch));
    assert_eq!(adv_index(&a, &[&good, &good, &good]).err(), Some(OpError::ShapeMismatch));
    let f = f32_array(&[0.0], vec![1]);
    assert_eq!(adv_index(&a, &[&f]).err(), Some(OpError::DtypeUnsupported));
    let i0 = i64_array(&[0, 1], vec![2]);
    let i1 = i64_array(&[0, 1, 0], vec![3]);
    assert_eq!(adv_index(&a, &[&i0, &i1]).err(), Some(OpError::ShapeMismatch));
    let oob = i64_array(&[3], vec![1]);
    assert_eq!(adv_index(&a, &[&oob]).err(), Some(OpError::IndexOutOfBounds));
    let neg = i64_array(&[-4], vec![1]);
    assert_eq!(adv_index(&a, &[&neg]).err(), Some(OpError::IndexOutOfBounds));
}

#[test]
fn b_shape_size_counts_elements() {
    assert_eq!(b_shape_size(&[2, 3, 4]), 24);
    assert_eq!(b_shape_size(&[]), 1);
    assert_eq!(b_shape_size(&[5, 0]), 0);
}

// --- boolean masks ---

#[test]
fn boolean_mask_full_shape() {
    let a = arange_f32(6, vec![2, 3]);
    let m = bool_array(&[true, false, true, false, false, true], vec![2, 3]);
    let r = boolean_mask(&a, &m).unwrap();
    assert_eq!(r.layout.shape, vec![3]);
    assert_eq!(read_f32(&r), vec![0.0, 2.0, 5.0]);
}

#[test]
fn boolean_mask_leading_dims_keep_rows() {
    let a = arange_f32(6, vec![3, 2]);
    let m = bool_array(&[false, true, true], vec![3]);
    let r = boolean_mask(&a, &m).unwrap();
    assert_eq!(r.layout.shape, vec![2, 2]);
    assert_eq!(read_f32(&r), vec![2.0, 3.0, 4.0, 5.0]);
}

#[test]
fn boolean_mask_all_false_is_empty() {
    let a = arange_f32(6, vec![3, 2]);
    let m = bool_array(&[false, false, false], vec![3]);
    let r = boolean_mask(&a, &m).unwrap();
    assert_eq!(r.layout.shape, vec![0, 2]);
    assert_eq!(r.data.len(), 0);
}

#[test]
fn boolean_mask_size_one_dim_reads_index_zero() {
    // a mask dimension of 1 uses its own coordinate 0
    let a = arange_f32(6, vec![3, 2]);
    let m = bool_array(&[true], vec![1]);
    let r = boolean_mask(&a, &m).unwrap();
    assert_eq!(r.layout.shape, vec![1, 2]);
    assert_eq!(read_f32(&r), vec![0.0, 1.0]);
}

#[test]
fn boolean_mask_errors() {
    let a = arange_f32(6, vec![3, 2]);
    let not_bool = i64_array(&[1, 0, 1], vec![3]);
    assert_eq!(boolean_mask(&a, &not_bool).err(), Some(OpError::DtypeUnsupported));
    let mut other_device = bool_array(&[true, false, true], vec![3]);
    other_device.device = Device::Musa(0);
    assert_eq!(boolean_mask(&a, &other_device).err(), Some(OpError::ShapeMismatch));
    let too_many = bool_array(&[true; 6], vec![3, 2, 1]);
    assert_eq!(boolean_mask(&a, &too_many).err(), Some(OpError::ShapeMismatch));
    let wrong = bool_array(&[true, false], vec![2]);
    assert_eq!(boolean_mask(&a, &wrong).err(), Some(OpError::ShapeMismatch));
    let scalar = bool_array(&[true], vec![]);
    assert_eq!(boolean_mask(&a, &scalar).err(), Some(OpError::ShapeMismatch));
    let empty = arange_f32(0, vec![0, 2]);
    let one = bool_array(&[true], vec![1]);
    assert_eq!(boolean_mask(&empty, &one).err(), Some(OpError::IndexOutOfBounds));
}

#[test]
fn gather_after_scatter_returns_values() {
    let x = arange_f32(12, vec![4, 3]);
    let idx = i64_array(&[3, 0], vec![2]);
    let values = f32_array(&[10.0, 11.0, 12.0, 20.0, 21.0, 22.0], vec![2, 3]);
    let s = scatter(&x, &idx, &values, 0).unwrap();
    let g = gather(&s, &idx, 0).unwrap();
    assert_eq!(g.layout.shape, vec![2, 3]);
    assert_eq!(read_f32(&g), vec![10.0, 11.0, 12.0, 20.0, 21.0, 22.0]);
}

#[test]
fn views_read_the_elements_they_map_to() {
    // a[i][j][k] = 12 i + 4 j + k
    let a = arange_f32(24, vec![2, 3, 4]);
    // fixing j = 2 reads a[i][2][k]
    let sel = contiguous(&index_select(&a, 1, 2).unwrap());
    assert_eq!(read_f32(&sel), vec![8.0, 9.0, 10.0, 11.0, 20.0, 21.0, 22.0, 23.0]);
    // v[c0][c1][c2] of permute(a, [2, 0, 1]) is a[c1][c2][c0]
    let t = contiguous(&permute(&a, &[2, 0, 1]).unwrap());
    assert_eq!(t.layout.shape, vec![4, 2, 3]);
    let vals = read_f32(&t);
    assert_eq!(&vals[0..6], &[0.0, 4.0, 8.0, 12.0, 16.0, 20.0]);
    assert_eq!(vals[23], 23.0);
    // a slice with steps reads start + c * step in each dimension
    let specs = [
        SliceSpec { start: 1, stop: 2, step: 1 },
        SliceSpec { start: 0, stop: 3, step: 2 },
        SliceSpec { start: 1, stop: 4, step: 2 },
    ];
    let s = contiguous(&slice(&a, &specs).unwrap());
    assert_eq!(s.layout.shape, vec![1, 2, 2]);
    assert_eq!(read_f32(&s), vec![13.0, 15.0, 21.0, 23.0]);
    // merging the last two dimensions keeps row-major order
    let m = reshape_merge_last(&a, 2).unwrap();
    assert_eq!(m.layout.shape, vec![2, 12]);
    assert_eq!(read_f32(&contiguous(&m)), read_f32(&a));
}
