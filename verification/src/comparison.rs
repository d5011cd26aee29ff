//! The comparison operations: elementwise, with broadcasting and type promotion,
//! giving bool arrays.

use vstd::prelude::*;

use crate::array::ArrayDesc;
use crate::dtype::Dtype;
use crate::error::OpError;
use crate::op_builder::{comparison_elementwise, compare_outcome, CompareKernel, ElementwisePlan};

verus! {

/// `r` is the plan of a comparison with these arguments, or its error.
pub open spec fn compare_matches(
    r: Result<ElementwisePlan, OpError>,
    a: &ArrayDesc,
    b: &ArrayDesc,
    out: Option<&ArrayDesc>,
    promoted: Result<Dtype, OpError>,
    kernel: CompareKernel,
) -> bool {
    match compare_outcome(a, b, out, promoted, kernel) {
        Ok((shape, d)) => r matches Ok(p) && p.out_shape@ == shape && p.out_dtype == Dtype::Bool
            && p.compute_dtype == d && p.cast_a == (a.dtype != d) && p.cast_b == (b.dtype != d),
        Err(e) => r == Err::<ElementwisePlan, OpError>(e),
    }
}

/// `eq(a, b, out)`: elementwise `a == b` as bool, with NumPy broadcasting;
/// `promoted` is the promotion of the operands' dtypes.
pub fn eq(a: &ArrayDesc, b: &ArrayDesc, out: Option<&ArrayDesc>, promoted: Result<Dtype, OpError>) -> (r:
    Result<ElementwisePlan, OpError>)
    ensures
        compare_matches(r, a, b, out, promoted, CompareKernel::Eq),
{
    comparison_elementwise(a, b, out, promoted, CompareKernel::Eq)
}

/// `ne(a, b, out)`: elementwise `a != b` as bool, with NumPy broadcasting;
/// `promoted` is the promotion of the operands' dtypes.
pub fn ne(a: &ArrayDesc, b: &ArrayDesc, out: Option<&ArrayDesc>, promoted: Result<Dtype, OpError>) -> (r:
    Result<ElementwisePlan, OpError>)
    ensures
        compare_matches(r, a, b, out, promoted, CompareKernel::Ne),
{
    comparison_elementwise(a, b, out, promoted, CompareKernel::Ne)
}

/// `lt(a, b, out)`: elementwise `a < b` as bool, with NumPy broadcasting;
/// `promoted` is the promotion of the operands' dtypes.
pub fn lt(a: &ArrayDesc, b: &ArrayDesc, out: Option<&ArrayDesc>, promoted: Result<Dtype, OpError>) -> (r:
    Result<ElementwisePlan, OpError>)
    ensures
        compare_matches(r, a, b, out, promoted, CompareKernel::Lt),
{
    comparison_elementwise(a, b, out, promoted, CompareKernel::Lt)
}

/// `gt(a, b, out)`: elementwise `a > b` as bool, with NumPy broadcasting;
/// `promoted` is the promotion of the operands' dtypes.
pub fn gt(a: &ArrayDesc, b: &ArrayDesc, out: Option<&ArrayDesc>, promoted: Result<Dtype, OpError>) -> (r:
    Result<ElementwisePlan, OpError>)
    ensures
        compare_matches(r, a, b, out, promoted, CompareKernel::Gt),
{
    comparison_elementwise(a, b, out, promoted, CompareKernel::Gt)
}

/// `le(a, b, out)`: elementwise `a <= b` as bool, with NumPy broadcasting;
/// `promoted` is the promotion of the operands' dtypes.
pub fn le(a: &ArrayDesc, b: &ArrayDesc, out: Option<&ArrayDesc>, promoted: Result<Dtype, OpError>) -> (r:
    Result<ElementwisePlan, OpError>)
    ensures
        compare_matches(r, a, b, out, promoted, CompareKernel::Le),
{
    comparison_elementwise(a, b, out, promoted, CompareKernel::Le)
}

/// `ge(a, b, out)`: elementwise `a >= b` as bool, with NumPy broadcasting;
/// `promoted` is the promotion of the operands' dtypes.
pub fn ge(a: &ArrayDesc, b: &ArrayDesc, out: Option<&ArrayDesc>, promoted: Result<Dtype, OpError>) -> (r:
    Result<ElementwisePlan, OpError>)
    ensures
        compare_matches(r, a, b, out, promoted, CompareKernel::Ge),
{
    comparison_elementwise(a, b, out, promoted, CompareKernel::Ge)
}

} // verus!
