use musapy_ops::array::ArrayDesc;
use musapy_ops::dtype::{Device, Dtype};
use musapy_ops::error::OpError;
use musapy_ops::layout::Layout;
use musapy_ops::linalg::{
    assemble_upper_r, check_pivots, dot, final_matmul_shape, lu, matmul, matmul_shapes,
    pad_q_columns, pivots_to_int64, qr, solve, svd,
};

fn desc(shape: &[usize], dtype: Dtype, device: Device, buffer: u64) -> ArrayDesc {
    ArrayDesc { layout: Layout::from_shape(shape.to_vec()), dtype, device, buffer }
}

fn musa_f64(shape: &[usize], buffer: u64) -> ArrayDesc {
    desc(shape, Dtype::Float64, Device::Musa(0), buffer)
}

#[test]
fn test_matmul_shapes_2d_2d() {
    let (a2, b2, sf, sl) = matmul_shapes(&[3, 4], &[4, 5]).unwrap();
    assert_eq!(a2, [3, 4]);
    assert_eq!(b2, [4, 5]);
    assert!(!sf && !sl);
    assert_eq!(final_matmul_shape(&[3, 5], sf, sl), vec![3, 5]);
}

#[test]
fn test_matmul_shapes_1d_left() {
    let (a2, b2, sf, sl) = matmul_shapes(&[4], &[4, 5]).unwrap();
    assert_eq!(a2, [1, 4]);
    assert_eq!(b2, [4, 5]);
    assert!(sf && !sl);
    assert_eq!(final_matmul_shape(&[1, 5], sf, sl), vec![5]);
}

#[test]
fn test_matmul_shapes_1d_right() {
    let (a2, b2, sf, sl) = matmul_shapes(&[3, 4], &[4]).unwrap();
    assert_eq!(a2, [3, 4]);
    assert_eq!(b2, [4, 1]);
    assert!(!sf && sl);
    assert_eq!(final_matmul_shape(&[3, 1], sf, sl), vec![3]);
}

#[test]
fn test_matmul_shapes_1d_1d() {
    let (a2, b2, sf, sl) = matmul_shapes(&[4], &[4]).unwrap();
    assert_eq!(a2, [1, 4]);
    assert_eq!(b2, [4, 1]);
    assert!(sf && sl);
    assert_eq!(final_matmul_shape(&[1, 1], sf, sl), Vec::<usize>::new());
}

#[test]
fn test_matmul_shapes_errors() {
    assert!(matmul_shapes(&[3, 4], &[5, 6]).is_err());
    assert!(matmul_shapes(&[], &[4]).is_err());
    assert!(matmul_shapes(&[2, 3, 4], &[4, 5]).is_err());
    assert!(matmul_shapes(&[4, 5], &[2, 3, 4]).is_err());
}

#[test]
fn cpu_input_rejected() {
    let a = musa_f64(&[2, 2], 1);
    let b_cpu = desc(&[2, 2], Dtype::Float64, Device::Cpu, 2);
    let f64_ok = Ok(Dtype::Float64);
    assert_eq!(matmul(&a, &b_cpu, None, f64_ok).err(), Some(OpError::DeviceMismatch));
    assert!(dot(&a, &b_cpu, None, f64_ok).is_err());
    assert!(solve(&a, &b_cpu, f64_ok).is_err());
    let a_cpu = desc(&[2, 2], Dtype::Float64, Device::Cpu, 3);
    assert_eq!(matmul(&a_cpu, &b_cpu, None, f64_ok).err(), Some(OpError::DeviceMismatch));
    assert!(dot(&a_cpu, &b_cpu, None, f64_ok).is_err());
    assert!(solve(&a_cpu, &b_cpu, f64_ok).is_err());
}

#[test]
fn matmul_plan_shapes() {
    let a = musa_f64(&[2, 3], 1);
    let b = musa_f64(&[3, 4], 2);
    let f64_ok = Ok(Dtype::Float64);
    let c = matmul(&a, &b, None, f64_ok).unwrap();
    assert_eq!(c.out_shape, vec![2, 4]);
    assert_eq!((c.m, c.n, c.k), (2, 4, 3));
    let v = musa_f64(&[3], 3);
    assert_eq!(matmul(&v, &b, None, f64_ok).unwrap().out_shape, vec![4]);
    assert_eq!(matmul(&a, &v, None, f64_ok).unwrap().out_shape, vec![2]);
    let w = musa_f64(&[3], 4);
    assert_eq!(matmul(&v, &w, None, f64_ok).unwrap().out_shape, Vec::<usize>::new());
}

#[test]
fn matmul_k_zero_is_zero_filled() {
    let a = musa_f64(&[2, 0], 1);
    let b = musa_f64(&[0, 3], 2);
    let c = matmul(&a, &b, None, Ok(Dtype::Float64)).unwrap();
    assert_eq!(c.out_shape, vec![2, 3]);
    assert!(c.zero_fill);
}

#[test]
fn matmul_errors() {
    let a = musa_f64(&[2, 3], 1);
    let b = musa_f64(&[3, 4], 2);
    let i32_promoted = Ok(Dtype::Int32);
    assert_eq!(matmul(&a, &b, None, i32_promoted).err(), Some(OpError::DtypeUnsupported));
    let bad_out = musa_f64(&[4, 2], 3);
    assert_eq!(matmul(&a, &b, Some(&bad_out), Ok(Dtype::Float64)).err(), Some(OpError::ShapeMismatch));
    let alias = musa_f64(&[2, 4], 1);
    let alias_a = musa_f64(&[2, 3], 1);
    assert_eq!(matmul(&alias_a, &b, Some(&alias), Ok(Dtype::Float64)).err(), Some(OpError::AliasDetected));
    assert_eq!(
        matmul(&a, &b, None, Err(OpError::DtypeUnsupported)).err(),
        Some(OpError::DtypeUnsupported)
    );
}

#[test]
fn dot_inner_product_and_delegation() {
    let a = musa_f64(&[5], 1);
    let b = musa_f64(&[5], 2);
    let p = dot(&a, &b, None, Ok(Dtype::Float64)).unwrap();
    assert!(p.inner_product);
    assert_eq!(p.out_shape, Vec::<usize>::new());
    assert_eq!(p.k, 5);
    let c = musa_f64(&[4], 3);
    assert_eq!(dot(&a, &c, None, Ok(Dtype::Float64)).err(), Some(OpError::ShapeMismatch));
    let m = musa_f64(&[5, 2], 4);
    let q = dot(&a, &m, None, Ok(Dtype::Float64)).unwrap();
    assert!(!q.inner_product);
    assert_eq!(q.out_shape, vec![2]);
    let s = musa_f64(&[], 5);
    assert_eq!(dot(&s, &a, None, Ok(Dtype::Float64)).err(), Some(OpError::ShapeMismatch));
}

#[test]
fn solve_plan_shapes() {
    let a = musa_f64(&[2, 2], 1);
    let b = musa_f64(&[2], 2);
    let x = solve(&a, &b, Ok(Dtype::Float64)).unwrap();
    assert_eq!(x.out_shape, vec![2]);
    assert_eq!(x.nrhs, 1);
    let b2 = musa_f64(&[2, 3], 3);
    let x2 = solve(&a, &b2, Ok(Dtype::Float64)).unwrap();
    assert_eq!(x2.out_shape, vec![2, 3]);
    assert_eq!(x2.nrhs, 3);
    let nonsq = musa_f64(&[2, 3], 4);
    assert_eq!(solve(&nonsq, &b, Ok(Dtype::Float64)).err(), Some(OpError::ShapeMismatch));
    let empty = musa_f64(&[0, 0], 5);
    let eb = musa_f64(&[0], 6);
    let e = solve(&empty, &eb, Err(OpError::DtypeUnsupported)).unwrap();
    assert!(e.empty);
}

#[test]
fn check_pivots_singular() {
    assert_eq!(check_pivots(&[false, false]), Ok(()));
    assert_eq!(check_pivots(&[false, true]), Err(OpError::Singular));
}

#[test]
fn decomposition_shapes() {
    let a = musa_f64(&[4, 3], 1);
    let l = lu(&a).unwrap();
    assert_eq!(l.lu_shape, vec![4, 3]);
    assert_eq!(l.piv_shape, vec![3]);
    let q = qr(&a, "reduced").unwrap();
    assert_eq!(q.q_shape, vec![4, 3]);
    assert_eq!(q.r_shape, vec![3, 3]);
    let qc = qr(&a, "complete").unwrap();
    assert_eq!(qc.q_shape, vec![4, 4]);
    assert_eq!(qc.r_shape, vec![4, 3]);
    assert!(qc.pad_q);
    assert_eq!(qr(&a, "full").err(), Some(OpError::ShapeMismatch));
    let s = svd(&a, true, true).unwrap();
    assert_eq!(s.u_shape, Some(vec![4, 4]));
    assert_eq!(s.s_shape, vec![3]);
    assert_eq!(s.vh_shape, Some(vec![3, 3]));
    let st = svd(&a, false, true).unwrap();
    assert_eq!(st.u_shape, Some(vec![4, 3]));
    let sn = svd(&a, true, false).unwrap();
    assert_eq!(sn.u_shape, None);
    let cpu = desc(&[2, 2], Dtype::Float64, Device::Cpu, 2);
    assert_eq!(lu(&cpu).err(), Some(OpError::DeviceMismatch));
    let ints = desc(&[2, 2], Dtype::Int32, Device::Musa(0), 3);
    assert_eq!(qr(&ints, "reduced").err(), Some(OpError::DtypeUnsupported));
    let v = musa_f64(&[3], 4);
    assert_eq!(svd(&v, true, true).err(), Some(OpError::ShapeMismatch));
}

#[test]
fn upper_r_and_padded_q() {
    // column-major 3x2 buffer of one-byte elements: entry (i, j) = 10 * j + i + 1
    let cm: Vec<u8> = vec![1, 2, 3, 11, 12, 13];
    let r = assemble_upper_r(&cm, 3, 2, 2, 2, 1);
    assert_eq!(r, vec![1, 11, 0, 12]);
    let rc = assemble_upper_r(&cm, 3, 2, 2, 3, 1);
    assert_eq!(rc, vec![1, 11, 0, 12, 0, 0]);
    let q = pad_q_columns(&cm, 3, 2, 2, 1);
    assert_eq!(q, vec![1, 2, 3, 11, 12, 13, 0, 0, 0]);
    assert_eq!(pivots_to_int64(&[1, 3, -2]), vec![1i64, 3, -2]);
}

#[test]
fn dot_matrix_operand_plans_like_matmul() {
    let v = musa_f64(&[3], 1);
    let m = desc(&[3, 4], Dtype::Float32, Device::Musa(0), 2);
    let d = dot(&v, &m, None, Ok(Dtype::Float64)).unwrap();
    let g = matmul(&v, &m, None, Ok(Dtype::Float64)).unwrap();
    assert_eq!((d.m, d.k, d.n), (1, 3, 4));
    assert_eq!((d.m, d.k, d.n), (g.m, g.k, g.n));
    assert_eq!(d.out_shape, g.out_shape);
    assert!(!d.cast_a);
    assert!(d.cast_b);
    assert!(!d.zero_fill);
    assert!(!d.inner_product);
}

#[test]
fn dot_vector_plan_fields() {
    let a = desc(&[4], Dtype::Float32, Device::Musa(0), 1);
    let b = musa_f64(&[4], 2);
    let p = dot(&a, &b, None, Ok(Dtype::Float64)).unwrap();
    assert_eq!((p.m, p.n, p.k), (1, 1, 4));
    assert!(p.cast_a);
    assert!(!p.cast_b);
    assert!(!p.zero_fill);
    assert_eq!(p.dtype, Dtype::Float64);
    let e1 = musa_f64(&[0], 3);
    let e2 = musa_f64(&[0], 4);
    let z = dot(&e1, &e2, None, Ok(Dtype::Float64)).unwrap();
    assert_eq!(z.k, 0);
    assert!(z.inner_product);
    assert!(!z.zero_fill);
}

#[test]
fn matmul_k_zero_plan_fills_zeros() {
    let a = musa_f64(&[2, 0], 1);
    let b = musa_f64(&[0, 3], 2);
    let c = matmul(&a, &b, None, Ok(Dtype::Float64)).unwrap();
    assert_eq!((c.m, c.n, c.k), (2, 3, 0));
    assert!(c.zero_fill);
    let e = musa_f64(&[0, 0], 3);
    let f = matmul(&e, &b, None, Ok(Dtype::Float64)).unwrap();
    assert_eq!(f.out_shape, vec![0, 3]);
    assert!(!f.zero_fill);
}

#[test]
fn solve_plan_vector_and_matrix_rhs() {
    let a = musa_f64(&[2, 2], 1);
    let b = musa_f64(&[2], 2);
    let x = solve(&a, &b, Ok(Dtype::Float64)).unwrap();
    assert_eq!(x.out_shape, vec![2]);
    assert_eq!((x.n, x.nrhs), (2, 1));
    let b2 = musa_f64(&[2, 2], 3);
    let x2 = solve(&a, &b2, Ok(Dtype::Float64)).unwrap();
    assert_eq!(x2.out_shape, vec![2, 2]);
    assert_eq!((x2.n, x2.nrhs), (2, 2));
}
