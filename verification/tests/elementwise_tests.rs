use musapy_ops::array::ArrayDesc;
use musapy_ops::comparison::{eq, ge, gt, le, lt, ne};
use musapy_ops::dtype::{Device, Dtype};
use musapy_ops::elementwise::{abs, add, astype, clamp, cos, div, exp, log, mul, neg, pow, sign, sin, sub};
use musapy_ops::error::OpError;
use musapy_ops::layout::Layout;

fn desc(shape: &[usize], dtype: Dtype, device: Device, buffer: u64) -> ArrayDesc {
    ArrayDesc { layout: Layout::from_shape(shape.to_vec()), dtype, device, buffer }
}

fn f32_cpu(shape: &[usize], buffer: u64) -> ArrayDesc {
    desc(shape, Dtype::Float32, Device::Cpu, buffer)
}

#[test]
fn binary_broadcast_incompatible_errors() {
    let a = f32_cpu(&[3], 1);
    let b = f32_cpu(&[2], 2);
    assert!(add(&a, &b, None, Ok(Dtype::Float32)).is_err());
}

#[test]
fn binary_int_only_rejected_by_whitelist() {
    let a = desc(&[2], Dtype::Int32, Device::Cpu, 1);
    let b = desc(&[2], Dtype::Int32, Device::Cpu, 2);
    assert!(add(&a, &b, None, Ok(Dtype::Int32)).is_err());
}

#[test]
fn binary_out_shape_mismatch_errors() {
    let a = f32_cpu(&[2], 1);
    let b = f32_cpu(&[2], 2);
    let out = f32_cpu(&[3], 3);
    assert!(add(&a, &b, Some(&out), Ok(Dtype::Float32)).is_err());
}

#[test]
fn binary_alias_detected() {
    let a = f32_cpu(&[2], 1);
    let b = f32_cpu(&[2], 2);
    assert!(add(&a, &b, Some(&a), Ok(Dtype::Float32)).is_err());
}

#[test]
fn binary_device_mismatch_errors() {
    let a = f32_cpu(&[1], 1);
    let b = desc(&[1], Dtype::Float32, Device::Musa(0), 2);
    assert!(add(&a, &b, None, Ok(Dtype::Float32)).is_err());
}

#[test]
fn unary_int_rejected_by_whitelist() {
    let a = desc(&[2], Dtype::Int64, Device::Cpu, 1);
    assert!(abs(&a, None).is_err());
}

#[test]
fn astype_unsupported_target_errors() {
    let a = f32_cpu(&[1], 1);
    assert!(astype(&a, Dtype::Int32, None).is_err());
}

#[test]
fn binary_broadcast_plan_shape() {
    let a = f32_cpu(&[3, 1], 1);
    let b = f32_cpu(&[4], 2);
    let p = add(&a, &b, None, Ok(Dtype::Float32)).unwrap();
    assert_eq!(p.out_shape, vec![3, 4]);
    assert_eq!(p.out_dtype, Dtype::Float32);
    assert!(!p.cast_a && !p.cast_b);
}

#[test]
fn binary_promotion_casts_inputs() {
    let a = desc(&[3], Dtype::Int32, Device::Cpu, 1);
    let b = f32_cpu(&[3], 2);
    let p = mul(&a, &b, None, Ok(Dtype::Float32)).unwrap();
    assert_eq!(p.out_dtype, Dtype::Float32);
    assert!(p.cast_a && !p.cast_b);
    let c = desc(&[3], Dtype::Float64, Device::Cpu, 3);
    let q = sub(&b, &c, None, Ok(Dtype::Float64)).unwrap();
    assert!(q.cast_a && !q.cast_b);
    assert_eq!(div(&b, &c, None, Err(OpError::DtypeUnsupported)).err(), Some(OpError::DtypeUnsupported));
}

#[test]
fn binary_error_kinds() {
    let a = f32_cpu(&[2], 1);
    let b = f32_cpu(&[3], 2);
    assert_eq!(add(&a, &b, None, Ok(Dtype::Float32)).err(), Some(OpError::ShapeMismatch));
    let g = desc(&[2], Dtype::Float32, Device::Musa(0), 3);
    assert_eq!(add(&a, &g, None, Ok(Dtype::Float32)).err(), Some(OpError::DeviceMismatch));
    let c = desc(&[2], Dtype::Complex64, Device::Cpu, 4);
    assert_eq!(pow(&c, &c, None, Ok(Dtype::Complex64)).err(), Some(OpError::DtypeUnsupported));
    assert!(add(&c, &c, None, Ok(Dtype::Complex64)).is_ok());
    let out_i = desc(&[2], Dtype::Int64, Device::Cpu, 5);
    assert_eq!(add(&a, &a, Some(&out_i), Ok(Dtype::Float32)).err(), Some(OpError::DtypeUnsupported));
}

#[test]
fn unary_plans() {
    let a = f32_cpu(&[2, 2], 1);
    for p in [sin(&a, None), cos(&a, None), exp(&a, None), log(&a, None), sign(&a, None), neg(&a, None)] {
        let p = p.unwrap();
        assert_eq!(p.out_shape, vec![2, 2]);
        assert_eq!(p.out_dtype, Dtype::Float32);
    }
    let c = desc(&[2], Dtype::Complex128, Device::Cpu, 2);
    assert_eq!(abs(&c, None).unwrap().out_dtype, Dtype::Float64);
    assert_eq!(sin(&c, None).err(), Some(OpError::DtypeUnsupported));
    assert_eq!(abs(&a, Some(&a)).err(), Some(OpError::AliasDetected));
    assert_eq!(clamp(&c, None).err(), Some(OpError::DtypeUnsupported));
    assert!(clamp(&a, None).is_ok());
}

#[test]
fn astype_plans() {
    let a = desc(&[3], Dtype::Int64, Device::Cpu, 1);
    let p = astype(&a, Dtype::Float32, None).unwrap();
    assert_eq!(p.out_dtype, Dtype::Float32);
    assert!(p.cast_a);
    let same = astype(&a, Dtype::Int64, None).unwrap();
    assert!(!same.cast_a);
}

#[test]
fn comparison_plans() {
    let a = f32_cpu(&[2, 1], 1);
    let b = f32_cpu(&[3], 2);
    for r in [eq(&a, &b, None, Ok(Dtype::Float32)), ne(&a, &b, None, Ok(Dtype::Float32)), lt(&a, &b, None, Ok(Dtype::Float32)),
              gt(&a, &b, None, Ok(Dtype::Float32)), le(&a, &b, None, Ok(Dtype::Float32)), ge(&a, &b, None, Ok(Dtype::Float32))] {
        let p = r.unwrap();
        assert_eq!(p.out_shape, vec![2, 3]);
        assert_eq!(p.out_dtype, Dtype::Bool);
    }
    let c = desc(&[2], Dtype::Complex64, Device::Cpu, 3);
    assert!(eq(&c, &c, None, Ok(Dtype::Complex64)).is_ok());
    assert_eq!(lt(&c, &c, None, Ok(Dtype::Complex64)).err(), Some(OpError::DtypeUnsupported));
}
