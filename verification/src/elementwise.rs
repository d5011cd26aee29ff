//! The elementwise operations: binary arithmetic with broadcasting and type
//! promotion, unary math functions, clamp and explicit dtype conversion.

use vstd::prelude::*;

use crate::array::ArrayDesc;
use crate::dtype::Dtype;
use crate::error::OpError;
use crate::op_builder::{
    astype_op, astype_outcome, binary_elementwise, binary_outcome, clamp_elementwise,
    clamp_outcome, unary_elementwise, unary_outcome, BinaryKernel, ElementwisePlan, UnaryKernel,
};

verus! {

/// `r` is the plan of a binary operation with these arguments, or its error.
pub open spec fn binary_matches(
    r: Result<ElementwisePlan, OpError>,
    a: &ArrayDesc,
    b: &ArrayDesc,
    out: Option<&ArrayDesc>,
    promoted: Result<Dtype, OpError>,
    kernel: BinaryKernel,
) -> bool {
    match binary_outcome(a, b, out, promoted, kernel) {
        Ok((shape, d)) => r matches Ok(p) && p.out_shape@ == shape && p.out_dtype == d
            && p.compute_dtype == d && p.cast_a == (a.dtype != d) && p.cast_b == (b.dtype != d),
        Err(e) => r == Err::<ElementwisePlan, OpError>(e),
    }
}

/// `r` is the plan of a unary operation with these arguments, or its error.
pub open spec fn unary_matches(
    r: Result<ElementwisePlan, OpError>,
    a: &ArrayDesc,
    out: Option<&ArrayDesc>,
    kernel: UnaryKernel,
) -> bool {
    match unary_outcome(a, out, kernel) {
        Ok((shape, d)) => r matches Ok(p) && p.out_shape@ == shape && p.out_dtype == d
            && p.compute_dtype == a.dtype,
        Err(e) => r == Err::<ElementwisePlan, OpError>(e),
    }
}

/// `add(a, b, out)`: elementwise sum, with NumPy broadcasting; `promoted` is the
/// promotion of the operands' dtypes, which must be float32 or float64.
pub fn add(a: &ArrayDesc, b: &ArrayDesc, out: Option<&ArrayDesc>, promoted: Result<Dtype, OpError>) -> (r:
    Result<ElementwisePlan, OpError>)
    ensures
        binary_matches(r, a, b, out, promoted, BinaryKernel::Add),
{
    binary_elementwise(a, b, out, promoted, BinaryKernel::Add)
}

/// `sub(a, b, out)`: elementwise difference, with NumPy broadcasting; `promoted` is the
/// promotion of the operands' dtypes, which must be float32 or float64.
pub fn sub(a: &ArrayDesc, b: &ArrayDesc, out: Option<&ArrayDesc>, promoted: Result<Dtype, OpError>) -> (r:
    Result<ElementwisePlan, OpError>)
    ensures
        binary_matches(r, a, b, out, promoted, BinaryKernel::Sub),
{
    binary_elementwise(a, b, out, promoted, BinaryKernel::Sub)
}

/// `mul(a, b, out)`: elementwise product, with NumPy broadcasting; `promoted` is the
/// promotion of the operands' dtypes, which must be float32 or float64.
pub fn mul(a: &ArrayDesc, b: &ArrayDesc, out: Option<&ArrayDesc>, promoted: Result<Dtype, OpError>) -> (r:
    Result<ElementwisePlan, OpError>)
    ensures
        binary_matches(r, a, b, out, promoted, BinaryKernel::Mul),
{
    binary_elementwise(a, b, out, promoted, BinaryKernel::Mul)
}

/// `div(a, b, out)`: elementwise quotient (IEEE semantics for division by zero), with NumPy broadcasting; `promoted` is the
/// promotion of the operands' dtypes, which must be float32 or float64.
pub fn div(a: &ArrayDesc, b: &ArrayDesc, out: Option<&ArrayDesc>, promoted: Result<Dtype, OpError>) -> (r:
    Result<ElementwisePlan, OpError>)
    ensures
        binary_matches(r, a, b, out, promoted, BinaryKernel::Div),
{
    binary_elementwise(a, b, out, promoted, BinaryKernel::Div)
}

/// `pow(a, b, out)`: elementwise power `a ** b`, with NumPy broadcasting; `promoted` is the
/// promotion of the operands' dtypes, which must be float32 or float64.
pub fn pow(a: &ArrayDesc, b: &ArrayDesc, out: Option<&ArrayDesc>, promoted: Result<Dtype, OpError>) -> (r:
    Result<ElementwisePlan, OpError>)
    ensures
        binary_matches(r, a, b, out, promoted, BinaryKernel::Pow),
{
    binary_elementwise(a, b, out, promoted, BinaryKernel::Pow)
}

/// `sin(a, out)`: elementwise sine; the output has `a`'s shape.
pub fn sin(a: &ArrayDesc, out: Option<&ArrayDesc>) -> (r: Result<ElementwisePlan, OpError>)
    ensures
        unary_matches(r, a, out, UnaryKernel::Sin),
{
    unary_elementwise(a, out, UnaryKernel::Sin)
}

/// `cos(a, out)`: elementwise cosine; the output has `a`'s shape.
pub fn cos(a: &ArrayDesc, out: Option<&ArrayDesc>) -> (r: Result<ElementwisePlan, OpError>)
    ensures
        unary_matches(r, a, out, UnaryKernel::Cos),
{
    unary_elementwise(a, out, UnaryKernel::Cos)
}

/// `exp(a, out)`: elementwise natural exponential; the output has `a`'s shape.
pub fn exp(a: &ArrayDesc, out: Option<&ArrayDesc>) -> (r: Result<ElementwisePlan, OpError>)
    ensures
        unary_matches(r, a, out, UnaryKernel::Exp),
{
    unary_elementwise(a, out, UnaryKernel::Exp)
}

/// `log(a, out)`: elementwise natural logarithm; the output has `a`'s shape.
pub fn log(a: &ArrayDesc, out: Option<&ArrayDesc>) -> (r: Result<ElementwisePlan, OpError>)
    ensures
        unary_matches(r, a, out, UnaryKernel::Log),
{
    unary_elementwise(a, out, UnaryKernel::Log)
}

/// `abs(a, out)`: elementwise absolute value; the output has `a`'s shape.
pub fn abs(a: &ArrayDesc, out: Option<&ArrayDesc>) -> (r: Result<ElementwisePlan, OpError>)
    ensures
        unary_matches(r, a, out, UnaryKernel::Abs),
{
    unary_elementwise(a, out, UnaryKernel::Abs)
}

/// `sign(a, out)`: elementwise sign (1, -1 or 0); the output has `a`'s shape.
pub fn sign(a: &ArrayDesc, out: Option<&ArrayDesc>) -> (r: Result<ElementwisePlan, OpError>)
    ensures
        unary_matches(r, a, out, UnaryKernel::Sign),
{
    unary_elementwise(a, out, UnaryKernel::Sign)
}

/// `neg(a, out)`: elementwise negation; the output has `a`'s shape.
pub fn neg(a: &ArrayDesc, out: Option<&ArrayDesc>) -> (r: Result<ElementwisePlan, OpError>)
    ensures
        unary_matches(r, a, out, UnaryKernel::Neg),
{
    unary_elementwise(a, out, UnaryKernel::Neg)
}

/// `clamp(a, lo, hi, out)`: the plan of clamping each element into `[lo, hi]`
/// (the bounds themselves are applied by the kernel); float32/float64 input only.
pub fn clamp(a: &ArrayDesc, out: Option<&ArrayDesc>) -> (r: Result<ElementwisePlan, OpError>)
    ensures
        match clamp_outcome(a, out) {
            Ok((shape, d)) => r matches Ok(p) && p.out_shape@ == shape && p.out_dtype == d
                && p.compute_dtype == a.dtype,
            Err(e) => r == Err::<ElementwisePlan, OpError>(e),
        },
{
    clamp_elementwise(a, out)
}

/// `astype(a, dtype, out)`: explicit conversion to `dtype`.
pub fn astype(a: &ArrayDesc, dtype: Dtype, out: Option<&ArrayDesc>) -> (r: Result<ElementwisePlan, OpError>)
    requires
        a.layout.wf(),
    ensures
        match astype_outcome(a, dtype, out) {
            Ok((shape, d)) => r matches Ok(p) && p.out_shape@ == shape && p.out_dtype == d
                && p.cast_a == (a.dtype != d),
            Err(e) => r == Err::<ElementwisePlan, OpError>(e),
        },
{
    astype_op(a, dtype, out)
}

} // verus!
