use musapy_ops::array::ArrayDesc;
use musapy_ops::dtype::{Device, Dtype};
use musapy_ops::error::OpError;
use musapy_ops::fft::{fft, ifft, rfft, FftKind, FftNorm, FftScale};
use musapy_ops::layout::Layout;
use musapy_ops::random::{rand, randn, Distribution};
use musapy_ops::sparse::{csr_from_host, spmm, spmv, toarray};

fn desc(shape: &[usize], dtype: Dtype, device: Device, buffer: u64) -> ArrayDesc {
    ArrayDesc { layout: Layout::from_shape(shape.to_vec()), dtype, device, buffer }
}

#[test]
fn fft_norm_parse() {
    assert_eq!(FftNorm::parse(None), Ok(FftNorm::Backward));
    assert_eq!(FftNorm::parse(Some("backward")), Ok(FftNorm::Backward));
    assert_eq!(FftNorm::parse(Some("ortho")), Ok(FftNorm::Ortho));
    assert_eq!(FftNorm::parse(Some("forward")), Ok(FftNorm::Forward));
    assert_eq!(FftNorm::parse(Some("none")), Err(OpError::ShapeMismatch));
    assert_eq!(FftNorm::Backward.scale(false), FftScale::InvN);
    assert_eq!(FftNorm::Forward.scale(true), FftScale::InvN);
    assert_eq!(FftNorm::Ortho.scale(true), FftScale::InvSqrtN);
    assert_eq!(FftNorm::Backward.scale(true), FftScale::One);
}

#[test]
fn fft_plans() {
    let a = desc(&[3, 8], Dtype::Float32, Device::Musa(0), 1);
    let p = fft(&a, None, -1, FftNorm::Backward, None).unwrap();
    assert_eq!(p.out_shape, vec![3, 8]);
    assert_eq!(p.out_dtype, Dtype::Complex64);
    assert_eq!(p.outer, 3);
    assert!(p.widen_input && !p.resize);
    assert_eq!(p.kind, FftKind::C2C);
    let r = rfft(&a, Some(10), 1, FftNorm::Ortho, None).unwrap();
    assert_eq!(r.out_shape, vec![3, 6]);
    assert!(r.resize);
    assert_eq!(r.kind, FftKind::R2C);
    let c = desc(&[4], Dtype::Complex128, Device::Musa(0), 2);
    let i = ifft(&c, None, 0, FftNorm::Backward, None).unwrap();
    assert_eq!(i.kind, FftKind::Z2Z);
    assert_eq!(i.scale, FftScale::InvN);
    assert_eq!(rfft(&c, None, -1, FftNorm::Backward, None).err(), Some(OpError::DtypeUnsupported));
    assert_eq!(fft(&a, None, 0, FftNorm::Backward, None).err(), Some(OpError::ShapeMismatch));
    let cpu = desc(&[4], Dtype::Float32, Device::Cpu, 3);
    assert_eq!(fft(&cpu, None, -1, FftNorm::Backward, None).err(), Some(OpError::DeviceMismatch));
    let s = desc(&[], Dtype::Float32, Device::Musa(0), 4);
    assert_eq!(fft(&s, None, -1, FftNorm::Backward, None).err(), Some(OpError::ShapeMismatch));
}

fn i32_bytes(v: &[i32]) -> Vec<u8> {
    v.iter().flat_map(|x| x.to_le_bytes()).collect()
}

#[test]
fn csr_roundtrip_to_dense() {
    let data: Vec<u8> = [1.0f32, 2.0, 3.0].iter().flat_map(|x| x.to_le_bytes()).collect();
    let m = csr_from_host(&data, &i32_bytes(&[0, 2, 1]), &i32_bytes(&[0, 2, 3]), 2, 3, 3, Dtype::Float32, Device::Musa(0))
        .unwrap();
    assert_eq!(m.shape(), (2, 3));
    assert_eq!(m.nnz(), 3);
    let d = toarray(&m).unwrap();
    assert_eq!(d.layout.shape, vec![2, 3]);
    let vals: Vec<f32> = (0..6).map(|i| f32::from_le_bytes(d.data[i * 4..i * 4 + 4].try_into().unwrap())).collect();
    assert_eq!(vals, vec![1.0, 0.0, 2.0, 0.0, 3.0, 0.0]);
}

#[test]
fn csr_errors_and_products() {
    let data: Vec<u8> = vec![0u8; 8];
    assert_eq!(
        csr_from_host(&data, &i32_bytes(&[0, 1]), &i32_bytes(&[0, 2]), 1, 2, 2, Dtype::Int32, Device::Musa(0)).err(),
        Some(OpError::DtypeUnsupported)
    );
    assert_eq!(
        csr_from_host(&data, &i32_bytes(&[0]), &i32_bytes(&[0, 2]), 1, 2, 2, Dtype::Float32, Device::Musa(0)).err(),
        Some(OpError::ShapeMismatch)
    );
    let m = csr_from_host(&data, &i32_bytes(&[0, 1]), &i32_bytes(&[0, 2]), 1, 2, 2, Dtype::Float32, Device::Musa(0))
        .unwrap();
    let v = desc(&[2], Dtype::Float32, Device::Musa(0), 1);
    let p = spmv(&m, &v).unwrap();
    assert_eq!(p.out_shape, vec![1]);
    assert!(!p.zero_fill);
    let bad = desc(&[3], Dtype::Float32, Device::Musa(0), 2);
    assert_eq!(spmv(&m, &bad).err(), Some(OpError::ShapeMismatch));
    let dense = desc(&[2, 5], Dtype::Float32, Device::Musa(0), 3);
    assert_eq!(spmm(&m, &dense).unwrap().out_shape, vec![1, 5]);
    let wrong = desc(&[2, 5], Dtype::Float64, Device::Musa(0), 4);
    assert_eq!(spmm(&m, &wrong).err(), Some(OpError::DtypeUnsupported));
    let cpu_m = csr_from_host(&data, &i32_bytes(&[0, 1]), &i32_bytes(&[0, 2]), 1, 2, 2, Dtype::Float32, Device::Cpu)
        .unwrap();
    assert_eq!(toarray(&cpu_m).err(), Some(OpError::DeviceMismatch));
}

#[test]
fn csr_duplicate_entries_last_wins() {
    let data: Vec<u8> = [5.0f32, 7.0].iter().flat_map(|x| x.to_le_bytes()).collect();
    let m = csr_from_host(&data, &i32_bytes(&[1, 1]), &i32_bytes(&[0, 2]), 1, 2, 2, Dtype::Float32, Device::Musa(0))
        .unwrap();
    let d = toarray(&m).unwrap();
    let vals: Vec<f32> = (0..2).map(|i| f32::from_le_bytes(d.data[i * 4..i * 4 + 4].try_into().unwrap())).collect();
    assert_eq!(vals, vec![0.0, 7.0]);
}

#[test]
fn random_plans() {
    let p = rand(&[2, 3], None, Device::Musa(0), Some(7)).unwrap();
    assert_eq!(p.count, 6);
    assert_eq!(p.dtype, Dtype::Float32);
    assert_eq!(p.reseed, Some(7));
    assert_eq!(p.distribution, Distribution::Uniform);
    let e = randn(&[0], Some(Dtype::Float64), Device::Musa(0), None).unwrap();
    assert!(!e.generate);
    assert_eq!(rand(&[2], None, Device::Cpu, None).err(), Some(OpError::DeviceMismatch));
    assert_eq!(rand(&[2], Some(Dtype::Int32), Device::Musa(0), None).err(), Some(OpError::DtypeUnsupported));
}

#[test]
fn fft_norm_scales_pair_up() {
    assert_eq!(FftNorm::Backward.scale(true), FftScale::One);
    assert_eq!(FftNorm::Backward.scale(false), FftScale::InvN);
    assert_eq!(FftNorm::Ortho.scale(true), FftScale::InvSqrtN);
    assert_eq!(FftNorm::Ortho.scale(false), FftScale::InvSqrtN);
    assert_eq!(FftNorm::Forward.scale(true), FftScale::InvN);
    assert_eq!(FftNorm::Forward.scale(false), FftScale::One);
}
