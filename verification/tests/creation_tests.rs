use musapy_ops::creation::{eye, full_from_bytes, ones, ones_like, zeros, zeros_like};
use musapy_ops::dtype::{Device, Dtype};
use musapy_ops::error::OpError;
use musapy_ops::indexing::HostArray;

fn size(a: &HostArray) -> usize {
    a.layout.shape.iter().product()
}

fn read_f32(a: &HostArray) -> Vec<f32> {
    (0..size(a)).map(|i| f32::from_le_bytes(a.data[i * 4..i * 4 + 4].try_into().unwrap())).collect()
}

fn read_f64(a: &HostArray) -> Vec<f64> {
    (0..size(a)).map(|i| f64::from_le_bytes(a.data[i * 8..i * 8 + 8].try_into().unwrap())).collect()
}

fn read_i64(a: &HostArray) -> Vec<i64> {
    (0..size(a)).map(|i| i64::from_le_bytes(a.data[i * 8..i * 8 + 8].try_into().unwrap())).collect()
}

#[test]
fn zeros_basic_f32() {
    let a = zeros(&[2, 3], None, Device::Cpu).unwrap();
    assert_eq!(a.dtype, Dtype::Float32);
    assert_eq!(a.layout.shape, vec![2, 3]);
    assert_eq!(read_f32(&a), vec![0.0; 6]);
}

#[test]
fn zeros_explicit_dtype() {
    let a = zeros(&[4], Some(Dtype::Int64), Device::Cpu).unwrap();
    assert_eq!(a.dtype, Dtype::Int64);
    assert_eq!(read_i64(&a), vec![0; 4]);
}

#[test]
fn ones_basic_f32() {
    let a = ones(&[3], None, Device::Cpu).unwrap();
    assert_eq!(read_f32(&a), vec![1.0, 1.0, 1.0]);
}

#[test]
fn ones_f64() {
    let a = ones(&[2], Some(Dtype::Float64), Device::Cpu).unwrap();
    assert_eq!(a.dtype, Dtype::Float64);
    assert_eq!(read_f64(&a), vec![1.0, 1.0]);
}

#[test]
fn eye_3x3() {
    let a = eye(3, None, 0, None, Device::Cpu).unwrap();
    assert_eq!(a.layout.shape, vec![3, 3]);
    assert_eq!(read_f32(&a), vec![1.0, 0.0, 0.0, 0.0, 1.0, 0.0, 0.0, 0.0, 1.0]);
}

#[test]
fn eye_rectangular() {
    let a = eye(2, Some(3), 0, None, Device::Cpu).unwrap();
    assert_eq!(a.layout.shape, vec![2, 3]);
    assert_eq!(read_f32(&a), vec![1.0, 0.0, 0.0, 0.0, 1.0, 0.0]);
}

#[test]
fn eye_offset_k1() {
    let a = eye(3, Some(3), 1, None, Device::Cpu).unwrap();
    assert_eq!(read_f32(&a), vec![0.0, 1.0, 0.0, 0.0, 0.0, 1.0, 0.0, 0.0, 0.0]);
}

#[test]
fn eye_offset_k_neg1() {
    let a = eye(3, Some(3), -1, None, Device::Cpu).unwrap();
    assert_eq!(read_f32(&a), vec![0.0, 0.0, 0.0, 1.0, 0.0, 0.0, 0.0, 1.0, 0.0]);
}

#[test]
fn zeros_like_inherits() {
    let a = ones(&[2, 3], Some(Dtype::Float64), Device::Cpu).unwrap();
    let z = zeros_like(&a).unwrap();
    assert_eq!(z.dtype, Dtype::Float64);
    assert_eq!(z.layout.shape, vec![2, 3]);
    assert_eq!(read_f64(&z), vec![0.0; 6]);
}

#[test]
fn ones_like_inherits() {
    let a = zeros(&[4], Some(Dtype::Int64), Device::Cpu).unwrap();
    let o = ones_like(&a).unwrap();
    assert_eq!(o.dtype, Dtype::Int64);
    assert_eq!(read_i64(&o), vec![1, 1, 1, 1]);
}

#[test]
fn creation_dtype_errors_and_empty() {
    assert_eq!(ones(&[2], Some(Dtype::Complex64), Device::Cpu).err(), Some(OpError::DtypeUnsupported));
    let e = ones(&[0, 3], Some(Dtype::Complex64), Device::Cpu).unwrap();
    assert_eq!(e.layout.shape, vec![0, 3]);
    assert_eq!(eye(2, None, 0, Some(Dtype::Uint8), Device::Cpu).err(), Some(OpError::DtypeUnsupported));
    let b = ones(&[2], Some(Dtype::Bool), Device::Cpu).unwrap();
    assert_eq!(b.data.as_slice(), &[1u8, 1u8]);
    let i = eye(2, Some(2), 0, Some(Dtype::Int32), Device::Musa(1)).unwrap();
    assert_eq!(i.device, Device::Musa(1));
    assert_eq!(i.data.as_slice(), &[1u8, 0, 0, 0, 0, 0, 0, 0, 0, 0, 0, 0, 1, 0, 0, 0]);
}

#[test]
fn full_from_bytes_fills_every_element() {
    let elem = 2.5f32.to_le_bytes();
    let a = full_from_bytes(&[2, 3], &elem, None, Device::Cpu).unwrap();
    assert_eq!(a.layout.shape, vec![2, 3]);
    assert_eq!(a.dtype, Dtype::Float32);
    let vals: Vec<f32> = a
        .data
        .chunks(4)
        .map(|c| f32::from_le_bytes([c[0], c[1], c[2], c[3]]))
        .collect();
    assert_eq!(vals, vec![2.5; 6]);
    let i = full_from_bytes(&[3], &(-4i64).to_le_bytes(), Some(Dtype::Int64), Device::Cpu).unwrap();
    assert_eq!(i.data.len(), 24);
    assert_eq!(&i.data[16..24], &(-4i64).to_le_bytes());
}

#[test]
fn full_from_bytes_unsupported_dtype() {
    let elem = [0u8; 8];
    assert_eq!(
        full_from_bytes(&[2], &elem, Some(Dtype::Complex64), Device::Cpu).err(),
        Some(OpError::DtypeUnsupported)
    );
    // an empty array needs no fill, whatever the dtype
    let e = full_from_bytes(&[0, 4], &elem, Some(Dtype::Complex64), Device::Cpu).unwrap();
    assert_eq!(e.data.len(), 0);
}
