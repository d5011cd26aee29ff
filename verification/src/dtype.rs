use vstd::prelude::*;

verus! {

/// Element types an array can hold.
#[derive(Clone, Copy, Debug, PartialEq, Eq, Structural, Hash)]
pub enum Dtype {
    Bool,
    Int8,
    Int16,
    Int32,
    Int64,
    Uint8,
    Uint16,
    Uint32,
    Uint64,
    Float16,
    Bfloat16,
    Float32,
    Float64,
    Complex64,
    Complex128,
}

/// Where an array's buffer lives: host memory or a numbered MUSA GPU.
#[derive(Clone, Copy, Debug, PartialEq, Eq, Structural, Hash)]
pub enum Device {
    Cpu,
    Musa(u32),
}

/// Size of one element in bytes.
pub open spec fn spec_element_size(d: Dtype) -> nat {
    match d {
        Dtype::Bool | Dtype::Int8 | Dtype::Uint8 => 1,
        Dtype::Int16 | Dtype::Uint16 | Dtype::Float16 | Dtype::Bfloat16 => 2,
        Dtype::Int32 | Dtype::Uint32 | Dtype::Float32 => 4,
        Dtype::Int64 | Dtype::Uint64 | Dtype::Float64 | Dtype::Complex64 => 8,
        Dtype::Complex128 => 16,
    }
}

/// The real floating dtypes that the compute kernels are built for.
pub open spec fn is_real_float(d: Dtype) -> bool {
    d == Dtype::Float32 || d == Dtype::Float64
}

pub open spec fn is_complex(d: Dtype) -> bool {
    d == Dtype::Complex64 || d == Dtype::Complex128
}

/// Signed and unsigned integer dtypes (not bool).
pub open spec fn is_integer(d: Dtype) -> bool {
    match d {
        Dtype::Int8 | Dtype::Int16 | Dtype::Int32 | Dtype::Int64 | Dtype::Uint8 | Dtype::Uint16
        | Dtype::Uint32 | Dtype::Uint64 => true,
        _ => false,
    }
}

pub open spec fn is_gpu(d: Device) -> bool {
    d is Musa
}

impl Dtype {
    /// Size of one element in bytes.
    pub fn element_size(&self) -> (r: usize)
        ensures
            r == spec_element_size(*self),
    {
        match self {
            Dtype::Bool | Dtype::Int8 | Dtype::Uint8 => 1,
            Dtype::Int16 | Dtype::Uint16 | Dtype::Float16 | Dtype::Bfloat16 => 2,
            Dtype::Int32 | Dtype::Uint32 | Dtype::Float32 => 4,
            Dtype::Int64 | Dtype::Uint64 | Dtype::Float64 | Dtype::Complex64 => 8,
            Dtype::Complex128 => 16,
        }
    }

    /// Whether the dtype is float32 or float64.
    pub fn is_real_float(&self) -> (r: bool)
        ensures
            r == is_real_float(*self),
    {
        match self {
            Dtype::Float32 | Dtype::Float64 => true,
            _ => false,
        }
    }

    /// Whether the dtype is complex64 or complex128.
    pub fn is_complex(&self) -> (r: bool)
        ensures
            r == is_complex(*self),
    {
        match self {
            Dtype::Complex64 | Dtype::Complex128 => true,
            _ => false,
        }
    }
}

impl Device {
    /// Whether the device is a MUSA GPU.
    pub fn is_gpu(&self) -> (r: bool)
        ensures
            r == is_gpu(*self),
    {
        match self {
            Device::Musa(_) => true,
            Device::Cpu => false,
        }
    }
}

} // verus!
