//! Argument checks, shapes and host-side data assembly of the linear-algebra
//! operations (matmul, dot, solve, lu, qr, svd), which run on the GPU math library.

use vstd::prelude::*;
use vstd::string::StrSliceExecFns;

use crate::array::{check_out, out_check, ArrayDesc};
use crate::dtype::{is_gpu, is_real_float, Device, Dtype};
use crate::error::OpError;
use crate::indexing::block;
use crate::op_builder::{cast_supported, validate_cast_pair};

verus! {

/// The math-library operations run on a MUSA device only.
pub fn require_musa(device: Device) -> (r: Result<(), OpError>)
    ensures
        is_gpu(device) ==> r == Ok::<(), OpError>(()),
        !is_gpu(device) ==> r == Err::<(), OpError>(OpError::DeviceMismatch),
{
    match device {
        Device::Musa(_) => Ok(()),
        Device::Cpu => Err(OpError::DeviceMismatch),
    }
}

/// The math-library operations compute in float32 or float64 only.
pub fn check_float_whitelist(dtype: Dtype) -> (r: Result<(), OpError>)
    ensures
        is_real_float(dtype) ==> r == Ok::<(), OpError>(()),
        !is_real_float(dtype) ==> r == Err::<(), OpError>(OpError::DtypeUnsupported),
{
    match dtype {
        Dtype::Float32 | Dtype::Float64 => Ok(()),
        _ => Err(OpError::DtypeUnsupported),
    }
}

// ── matmul shapes ──────────────────────────────────────────────

/// The 2-D shape a matmul operand is treated as: a 1-D left operand `(n,)` becomes
/// `(1, n)`, a 1-D right operand becomes `(n, 1)`.
pub open spec fn work_shape(s: Seq<usize>, left: bool) -> Seq<usize> {
    if s.len() == 1 {
        if left {
            seq![1usize, s[0]]
        } else {
            seq![s[0], 1usize]
        }
    } else {
        s
    }
}

/// Both operands are 1-D or 2-D and the inner dimensions agree.
pub open spec fn matmul_shapes_ok(a: Seq<usize>, b: Seq<usize>) -> bool {
    &&& 1 <= a.len() <= 2
    &&& 1 <= b.len() <= 2
    &&& work_shape(a, true)[1] == work_shape(b, false)[0]
}

/// The result shape: `(m, n)`, with the dimension a 1-D operand added squeezed out.
pub open spec fn matmul_result_shape(a: Seq<usize>, b: Seq<usize>) -> Seq<usize> {
    let m = work_shape(a, true)[0];
    let n = work_shape(b, false)[1];
    if a.len() == 1 && b.len() == 1 {
        Seq::empty()
    } else if a.len() == 1 {
        seq![n]
    } else if b.len() == 1 {
        seq![m]
    } else {
        seq![m, n]
    }
}

/// 2-D working shapes of a matmul and whether the first / last dimension of the
/// result is squeezed (the operand on that side was 1-D). 0-dim operands, operands
/// of more than two dimensions and mismatched inner dimensions are `ShapeMismatch`.
pub fn matmul_shapes(a_shape: &[usize], b_shape: &[usize]) -> (r: Result<
    ([usize; 2], [usize; 2], bool, bool),
    OpError,
>)
    ensures
        !matmul_shapes_ok(a_shape@, b_shape@) ==> r == Err::<
            ([usize; 2], [usize; 2], bool, bool),
            OpError,
        >(OpError::ShapeMismatch),
        matmul_shapes_ok(a_shape@, b_shape@) ==> (r matches Ok((a2, b2, sf, sl)) && a2@ == work_shape(
            a_shape@,
            true,
        ) && b2@ == work_shape(b_shape@, false) && sf == (a_shape@.len() == 1) && sl == (
        b_shape@.len() == 1)),
{
    if a_shape.len() == 0 || b_shape.len() == 0 {
        return Err(OpError::ShapeMismatch);
    }
    if a_shape.len() > 2 || b_shape.len() > 2 {
        return Err(OpError::ShapeMismatch);
    }
    let a_left_1d = a_shape.len() == 1;
    let b_right_1d = b_shape.len() == 1;
    let a2: [usize; 2] = if a_left_1d {
        [1, a_shape[0]]
    } else {
        [a_shape[0], a_shape[1]]
    };
    let b2: [usize; 2] = if b_right_1d {
        [b_shape[0], 1]
    } else {
        [b_shape[0], b_shape[1]]
    };
    assert(a2@ =~= work_shape(a_shape@, true));
    assert(b2@ =~= work_shape(b_shape@, false));
    if a2[1] != b2[0] {
        return Err(OpError::ShapeMismatch);
    }
    Ok((a2, b2, a_left_1d, b_right_1d))
}

/// The final matmul shape from the 2-D result shape `out_2d` and the squeeze flags.
pub fn final_matmul_shape(out_2d: &[usize], squeeze_first: bool, squeeze_last: bool) -> (r: Vec<
    usize,
>)
    requires
        out_2d@.len() == 2,
    ensures
        r@ == (if squeeze_first && squeeze_last {
            Seq::<usize>::empty()
        } else if squeeze_first {
            seq![out_2d@[1]]
        } else if squeeze_last {
            seq![out_2d@[0]]
        } else {
            out_2d@
        }),
{
    if squeeze_first && squeeze_last {
        Vec::new()
    } else if squeeze_first {
        vec![out_2d[1]]
    } else if squeeze_last {
        vec![out_2d[0]]
    } else {
        let r = vec![out_2d[0], out_2d[1]];
        assert(r@ =~= out_2d@);
        r
    }
}

// ── matmul / dot ───────────────────────────────────────────────

/// `out` is the buffer the kernel reads for operand `x` (no conversion, and already
/// row-major, so it is read in place).
pub open spec fn reads_in_place(out: Option<&ArrayDesc>, x: &ArrayDesc, dtype: Dtype) -> bool {
    out matches Some(o) && o.buffer == x.buffer && x.dtype == dtype && x.layout.spec_is_contiguous()
}

/// The checks of a two-operand math-library operation once the result shape is known,
/// in order: the promoted dtype must be float32/float64, `out=` must match, both
/// operands must convert to the promoted dtype, and `out=` must not be read in place.
pub open spec fn gemm_tail_outcome(
    a: &ArrayDesc,
    b: &ArrayDesc,
    out: Option<&ArrayDesc>,
    promoted: Result<Dtype, OpError>,
    shape: Seq<usize>,
) -> Result<(Seq<usize>, Dtype), OpError> {
    match promoted {
        Err(e) => Err(e),
        Ok(d) => if !is_real_float(d) {
            Err(OpError::DtypeUnsupported)
        } else {
            match out_check(out, shape, d, a.device) {
                Some(e) => Err(e),
                None => if a.dtype != d && !cast_supported(a.dtype, d) {
                    Err(OpError::DtypeUnsupported)
                } else if b.dtype != d && !cast_supported(b.dtype, d) {
                    Err(OpError::DtypeUnsupported)
                } else if reads_in_place(out, a, d) || reads_in_place(out, b, d) {
                    Err(OpError::AliasDetected)
                } else {
                    Ok((shape, d))
                },
            }
        },
    }
}

/// Outcome of `matmul(a, b, out)` given the promoted dtype of the operands.
pub open spec fn matmul_outcome(
    a: &ArrayDesc,
    b: &ArrayDesc,
    out: Option<&ArrayDesc>,
    promoted: Result<Dtype, OpError>,
) -> Result<(Seq<usize>, Dtype), OpError> {
    if a.device != b.device || !is_gpu(a.device) {
        Err(OpError::DeviceMismatch)
    } else if !matmul_shapes_ok(a.shape(), b.shape()) {
        Err(OpError::ShapeMismatch)
    } else {
        gemm_tail_outcome(a, b, out, promoted, matmul_result_shape(a.shape(), b.shape()))
    }
}

/// How a matmul or dot is run: a GEMM of `(m, k) x (k, n)` (or, for two vectors, an
/// inner product of length `k`), with operands converted first where flagged; with
/// `k == 0` and a non-empty result the output is zero-filled instead.
pub struct MatmulPlan {
    pub m: usize,
    pub n: usize,
    pub k: usize,
    pub dtype: Dtype,
    pub out_shape: Vec<usize>,
    pub cast_a: bool,
    pub cast_b: bool,
    pub zero_fill: bool,
    pub inner_product: bool,
}

/// Whether `x` is read in place by the kernel.
fn read_in_place(out: Option<&ArrayDesc>, x: &ArrayDesc, dtype: Dtype) -> (r: bool)
    requires
        x.layout.wf(),
    ensures
        r == reads_in_place(out, x, dtype),
{
    match out {
        Some(o) => o.buffer == x.buffer && x.dtype == dtype && x.layout.is_contiguous(),
        None => false,
    }
}

/// The shared tail of matmul and dot: dtype whitelist, `out=`, conversions, aliasing.
fn gemm_tail(
    a: &ArrayDesc,
    b: &ArrayDesc,
    out: Option<&ArrayDesc>,
    promoted: Result<Dtype, OpError>,
    shape: &[usize],
) -> (r: Result<Dtype, OpError>)
    requires
        a.layout.wf(),
        b.layout.wf(),
    ensures
        match gemm_tail_outcome(a, b, out, promoted, shape@) {
            Ok((_, d)) => r == Ok::<Dtype, OpError>(d),
            Err(e) => r == Err::<Dtype, OpError>(e),
        },
{
    let dtype = match promoted {
        Ok(d) => d,
        Err(e) => {
            return Err(e);
        },
    };
    match check_float_whitelist(dtype) {
        Ok(()) => {},
        Err(e) => {
            return Err(e);
        },
    }
    match check_out(out, shape, dtype, a.device) {
        Ok(()) => {},
        Err(e) => {
            return Err(e);
        },
    }
    if a.dtype != dtype {
        match validate_cast_pair(a.dtype, dtype) {
            Ok(()) => {},
            Err(e) => {
                return Err(e);
            },
        }
    }
    if b.dtype != dtype {
        match validate_cast_pair(b.dtype, dtype) {
            Ok(()) => {},
            Err(e) => {
                return Err(e);
            },
        }
    }
    if read_in_place(out, a, dtype) || read_in_place(out, b, dtype) {
        return Err(OpError::AliasDetected);
    }
    Ok(dtype)
}

/// `p` is the GEMM plan of `a @ b` with result shape `shape` and dtype `d`: sizes
/// `m x k` and `k x n` of the operands taken as matrices, each operand converted
/// when its dtype differs from `d`, and the result zero-filled when `k == 0`.
pub open spec fn gemm_plan_matches(p: MatmulPlan, a: &ArrayDesc, b: &ArrayDesc, shape: Seq<usize>, d: Dtype) -> bool {
    &&& p.out_shape@ == shape
    &&& p.dtype == d
    &&& p.m == work_shape(a.shape(), true)[0]
    &&& p.k == work_shape(a.shape(), true)[1]
    &&& p.n == work_shape(b.shape(), false)[1]
    &&& p.cast_a == (a.dtype != d)
    &&& p.cast_b == (b.dtype != d)
    &&& p.zero_fill == (p.k == 0 && p.m > 0 && p.n > 0)
    &&& !p.inner_product
}

/// `p` is the plan of the inner product of two vectors of length `a.shape()[0]`.
pub open spec fn inner_plan_matches(p: MatmulPlan, a: &ArrayDesc, b: &ArrayDesc, d: Dtype) -> bool {
    &&& p.out_shape@ == Seq::<usize>::empty()
    &&& p.dtype == d
    &&& p.m == 1 && p.n == 1 && p.k == a.shape()[0]
    &&& p.cast_a == (a.dtype != d)
    &&& p.cast_b == (b.dtype != d)
    &&& !p.zero_fill
    &&& p.inner_product
}

/// `matmul(a, b, out)` (NumPy `@` for 1-D and 2-D operands): `(m,k) @ (k,n)` is
/// `(m,n)`; a 1-D left operand `(k,)` gives `(n,)`, a 1-D right operand gives `(m,)`,
/// two vectors give a 0-dim result. Both operands must be on the same MUSA device;
/// `promoted` is the promotion of their dtypes, which must be float32 or float64.
pub fn matmul(
    a: &ArrayDesc,
    b: &ArrayDesc,
    out: Option<&ArrayDesc>,
    promoted: Result<Dtype, OpError>,
) -> (r: Result<MatmulPlan, OpError>)
    requires
        a.layout.wf(),
        b.layout.wf(),
    ensures
        match matmul_outcome(a, b, out, promoted) {
            Ok((shape, d)) => r matches Ok(p) && gemm_plan_matches(p, a, b, shape, d),
            Err(e) => r == Err::<MatmulPlan, OpError>(e),
        },
{
    if a.device != b.device {
        return Err(OpError::DeviceMismatch);
    }
    match require_musa(a.device) {
        Ok(()) => {},
        Err(e) => {
            return Err(e);
        },
    }
    let (a2, b2, sf, sl) = match matmul_shapes(a.layout.shape.as_slice(), b.layout.shape.as_slice()) {
        Ok(t) => t,
        Err(e) => {
            return Err(e);
        },
    };
    let m = a2[0];
    let k = a2[1];
    let n = b2[1];
    let out_2d: [usize; 2] = [m, n];
    let out_shape = final_matmul_shape(out_2d.as_slice(), sf, sl);
    proof {
        assert(out_shape@ =~= matmul_result_shape(a.shape(), b.shape()));
    }
    let dtype = match gemm_tail(a, b, out, promoted, out_shape.as_slice()) {
        Ok(d) => d,
        Err(e) => {
            return Err(e);
        },
    };
    Ok(
        MatmulPlan {
            m,
            n,
            k,
            dtype,
            out_shape,
            cast_a: a.dtype != dtype,
            cast_b: b.dtype != dtype,
            zero_fill: k == 0 && m > 0 && n > 0,
            inner_product: false,
        },
    )
}

/// Outcome of `dot(a, b, out)` given the promoted dtype of the operands.
pub open spec fn dot_outcome(
    a: &ArrayDesc,
    b: &ArrayDesc,
    out: Option<&ArrayDesc>,
    promoted: Result<Dtype, OpError>,
) -> Result<(Seq<usize>, Dtype), OpError> {
    if a.shape().len() == 0 || b.shape().len() == 0 || a.shape().len() > 2 || b.shape().len() > 2 {
        Err(OpError::ShapeMismatch)
    } else if a.shape().len() == 2 || b.shape().len() == 2 {
        matmul_outcome(a, b, out, promoted)
    } else if a.device != b.device || !is_gpu(a.device) {
        Err(OpError::DeviceMismatch)
    } else if a.shape() != b.shape() {
        Err(OpError::ShapeMismatch)
    } else {
        gemm_tail_outcome(a, b, out, promoted, Seq::empty())
    }
}

/// `dot(a, b, out)`: the inner product of two vectors of equal length (a 0-dim
/// result); when either operand is 2-D, `matmul(a, b, out)`. 0-dim operands and
/// operands of more than two dimensions are `ShapeMismatch`.
pub fn dot(a: &ArrayDesc, b: &ArrayDesc, out: Option<&ArrayDesc>, promoted: Result<Dtype, OpError>) -> (r:
    Result<MatmulPlan, OpError>)
    requires
        a.layout.wf(),
        b.layout.wf(),
    ensures
        match dot_outcome(a, b, out, promoted) {
            Ok((shape, d)) => r matches Ok(p) && if a.shape().len() == 1 && b.shape().len() == 1 {
                inner_plan_matches(p, a, b, d) && shape == Seq::<usize>::empty()
            } else {
                gemm_plan_matches(p, a, b, shape, d)
            },
            Err(e) => r == Err::<MatmulPlan, OpError>(e),
        },
{
    let an = a.layout.shape.len();
    let bn = b.layout.shape.len();
    if an == 0 || bn == 0 || an > 2 || bn > 2 {
        return Err(OpError::ShapeMismatch);
    }
    if an == 2 || bn == 2 {
        return matmul(a, b, out, promoted);
    }
    if a.device != b.device {
        return Err(OpError::DeviceMismatch);
    }
    match require_musa(a.device) {
        Ok(()) => {},
        Err(e) => {
            return Err(e);
        },
    }
    if !crate::array::same_shape(a.layout.shape.as_slice(), b.layout.shape.as_slice()) {
        return Err(OpError::ShapeMismatch);
    }
    let out_shape: Vec<usize> = Vec::new();
    let dtype = match gemm_tail(a, b, out, promoted, out_shape.as_slice()) {
        Ok(d) => d,
        Err(e) => {
            return Err(e);
        },
    };
    let len = a.layout.shape[0];
    Ok(
        MatmulPlan {
            m: 1,
            n: 1,
            k: len,
            dtype,
            out_shape,
            cast_a: a.dtype != dtype,
            cast_b: b.dtype != dtype,
            zero_fill: false,
            inner_product: true,
        },
    )
}


// ── solve ──────────────────────────────────────────────────────

/// Outcome of `solve(a, b)` given the promoted dtype of the operands.
pub open spec fn solve_outcome(a: &ArrayDesc, b: &ArrayDesc, promoted: Result<Dtype, OpError>) -> Result<
    (Seq<usize>, Dtype),
    OpError,
> {
    if a.device != b.device || !is_gpu(a.device) {
        Err(OpError::DeviceMismatch)
    } else if a.shape().len() != 2 || a.shape()[0] != a.shape()[1] {
        Err(OpError::ShapeMismatch)
    } else if b.shape().len() < 1 || b.shape().len() > 2 || b.shape()[0] != a.shape()[0] {
        Err(OpError::ShapeMismatch)
    } else if a.shape()[0] == 0 {
        Ok((b.shape(), a.dtype))
    } else {
        match promoted {
            Err(e) => Err(e),
            Ok(d) => if !is_real_float(d) {
                Err(OpError::DtypeUnsupported)
            } else if a.dtype != d && !cast_supported(a.dtype, d) {
                Err(OpError::DtypeUnsupported)
            } else if b.dtype != d && !cast_supported(b.dtype, d) {
                Err(OpError::DtypeUnsupported)
            } else {
                Ok((b.shape(), d))
            },
        }
    }
}

/// How `solve` is run: an LU factorization of the `n x n` matrix and `nrhs`
/// back-substitutions, on copies converted where flagged (nothing is run when `n`
/// is 0: the result is an empty array).
pub struct SolvePlan {
    pub n: usize,
    pub nrhs: usize,
    pub dtype: Dtype,
    pub out_shape: Vec<usize>,
    pub cast_a: bool,
    pub cast_b: bool,
    pub empty: bool,
}

/// `solve(a, b)`: `x` with `a @ x == b` for a square `(n, n)` matrix `a` and a
/// right-hand side `b` of shape `(n,)` or `(n, k)`; `x` has `b`'s shape. Both must be
/// on the same MUSA device; `promoted` is the promotion of their dtypes, which must be
/// float32 or float64 (not consulted when `n` is 0).
pub fn solve(a: &ArrayDesc, b: &ArrayDesc, promoted: Result<Dtype, OpError>) -> (r: Result<
    SolvePlan,
    OpError,
>)
    ensures
        match solve_outcome(a, b, promoted) {
            Ok((shape, d)) => r matches Ok(p) && {
                &&& p.out_shape@ == shape
                &&& p.dtype == d
                &&& p.n == a.shape()[0]
                &&& p.nrhs == (if b.shape().len() == 2 { b.shape()[1] } else { 1 })
                &&& p.empty == (a.shape()[0] == 0)
                &&& p.cast_a == (!p.empty && a.dtype != d)
                &&& p.cast_b == (!p.empty && b.dtype != d)
            },
            Err(e) => r == Err::<SolvePlan, OpError>(e),
        },
{
    if a.device != b.device {
        return Err(OpError::DeviceMismatch);
    }
    match require_musa(a.device) {
        Ok(()) => {},
        Err(e) => {
            return Err(e);
        },
    }
    if a.layout.shape.len() != 2 || a.layout.shape[0] != a.layout.shape[1] {
        return Err(OpError::ShapeMismatch);
    }
    let n = a.layout.shape[0];
    let bn = b.layout.shape.len();
    if bn < 1 || bn > 2 || b.layout.shape[0] != n {
        return Err(OpError::ShapeMismatch);
    }
    let nrhs = if bn == 2 {
        b.layout.shape[1]
    } else {
        1
    };
    let out_shape = b.layout.copy_shape();
    if n == 0 {
        return Ok(
            SolvePlan {
                n,
                nrhs,
                dtype: a.dtype,
                out_shape,
                cast_a: false,
                cast_b: false,
                empty: true,
            },
        );
    }
    let dtype = match promoted {
        Ok(d) => d,
        Err(e) => {
            return Err(e);
        },
    };
    match check_float_whitelist(dtype) {
        Ok(()) => {},
        Err(e) => {
            return Err(e);
        },
    }
    if a.dtype != dtype {
        match validate_cast_pair(a.dtype, dtype) {
            Ok(()) => {},
            Err(e) => {
                return Err(e);
            },
        }
    }
    if b.dtype != dtype {
        match validate_cast_pair(b.dtype, dtype) {
            Ok(()) => {},
            Err(e) => {
                return Err(e);
            },
        }
    }
    Ok(
        SolvePlan {
            n,
            nrhs,
            dtype,
            out_shape,
            cast_a: a.dtype != dtype,
            cast_b: b.dtype != dtype,
            empty: false,
        },
    )
}

/// The singularity test after the LU factorization: `zero_pivot[i]` tells whether the
/// diagonal entry `U(i, i)` is zero; any zero pivot makes the system `Singular`.
pub fn check_pivots(zero_pivot: &[bool]) -> (r: Result<(), OpError>)
    ensures
        (exists|i: int| 0 <= i < zero_pivot@.len() && zero_pivot@[i]) ==> r == Err::<(), OpError>(
            OpError::Singular,
        ),
        !(exists|i: int| 0 <= i < zero_pivot@.len() && zero_pivot@[i]) ==> r == Ok::<(), OpError>(()),
{
    let mut i: usize = 0;
    while i < zero_pivot.len()
        invariant
            i <= zero_pivot.len(),
            forall|j: int| 0 <= j < i ==> !zero_pivot@[j],
        decreases zero_pivot.len() - i,
    {
        if zero_pivot[i] {
            return Err(OpError::Singular);
        }
        i = i + 1;
    }
    Ok(())
}

// ── lu / qr / svd ──────────────────────────────────────────────

/// The checks shared by lu, qr and svd, in order: a MUSA device, a float32/float64
/// dtype, a 2-D array.
pub open spec fn decomp_check(a: &ArrayDesc) -> Result<(), OpError> {
    if !is_gpu(a.device) {
        Err(OpError::DeviceMismatch)
    } else if !is_real_float(a.dtype) {
        Err(OpError::DtypeUnsupported)
    } else if a.shape().len() != 2 {
        Err(OpError::ShapeMismatch)
    } else {
        Ok(())
    }
}

fn decomp_checks(a: &ArrayDesc) -> (r: Result<(), OpError>)
    ensures
        r == decomp_check(a),
{
    match require_musa(a.device) {
        Ok(()) => {},
        Err(e) => {
            return Err(e);
        },
    }
    match check_float_whitelist(a.dtype) {
        Ok(()) => {},
        Err(e) => {
            return Err(e);
        },
    }
    if a.layout.shape.len() != 2 {
        return Err(OpError::ShapeMismatch);
    }
    Ok(())
}

/// Shapes of an LU factorization of an `(m, n)` matrix: `lu` is `(m, n)` (unit lower
/// L and upper U packed, read from the column-major factorization unless the matrix
/// is empty) and `piv` holds `min(m, n)` 1-based pivots.
pub struct LuPlan {
    pub m: usize,
    pub n: usize,
    pub k: usize,
    pub lu_shape: Vec<usize>,
    pub piv_shape: Vec<usize>,
    pub empty: bool,
}

/// `lu(a)` (as `torch.linalg.lu_factor`): the shapes of `(lu, piv)` for a 2-D
/// float32/float64 array on a MUSA device.
pub fn lu(a: &ArrayDesc) -> (r: Result<LuPlan, OpError>)
    ensures
        match decomp_check(a) {
            Err(e) => r == Err::<LuPlan, OpError>(e),
            Ok(()) => r matches Ok(p) && {
                let m = a.shape()[0];
                let n = a.shape()[1];
                &&& p.m == m && p.n == n
                &&& p.k == (if m <= n { m } else { n })
                &&& p.lu_shape@ == seq![m, n]
                &&& p.piv_shape@ == seq![p.k]
                &&& p.empty == (m == 0 || n == 0)
            },
        },
{
    match decomp_checks(a) {
        Ok(()) => {},
        Err(e) => {
            return Err(e);
        },
    }
    let m = a.layout.shape[0];
    let n = a.layout.shape[1];
    let k = if m <= n {
        m
    } else {
        n
    };
    Ok(LuPlan { m, n, k, lu_shape: vec![m, n], piv_shape: vec![k], empty: m == 0 || n == 0 })
}

/// The pivots reported by the factorization, widened to int64.
pub fn pivots_to_int64(ipiv: &[i32]) -> (r: Vec<i64>)
    ensures
        r@.len() == ipiv@.len(),
        forall|i: int| 0 <= i < ipiv@.len() ==> #[trigger] r@[i] == ipiv@[i] as i64,
{
    let mut r: Vec<i64> = Vec::new();
    let mut i: usize = 0;
    while i < ipiv.len()
        invariant
            i <= ipiv.len(),
            r@.len() == i,
            forall|j: int| 0 <= j < i ==> #[trigger] r@[j] == ipiv@[j] as i64,
        decreases ipiv.len() - i,
    {
        r.push(ipiv[i] as i64);
        i = i + 1;
    }
    r
}

/// Whether `s` is the string `lit`.
pub(crate) fn str_is(s: &str, lit: &str) -> (r: bool)
    ensures
        r == (s@ == lit@),
{
    let n = s.unicode_len();
    if n != lit.unicode_len() {
        return false;
    }
    let mut i: usize = 0;
    while i < n
        invariant
            n == s@.len(),
            n == lit@.len(),
            i <= n,
            forall|j: int| 0 <= j < i ==> s@[j] == lit@[j],
        decreases n - i,
    {
        if s.get_char(i) != lit.get_char(i) {
            return false;
        }
        i = i + 1;
    }
    assert(s@ =~= lit@);
    true
}

/// Shapes of a QR factorization of an `(m, n)` matrix with `k = min(m, n)`:
/// reduced gives `q (m, k)`, `r (k, n)`; complete gives `q (m, m)`, `r (m, n)` (the
/// rows of `r` below `k` are zero). For complete mode with `m > n`, `q` is first
/// padded from the `k` reflector columns to `m` columns.
pub struct QrPlan {
    pub m: usize,
    pub n: usize,
    pub k: usize,
    pub complete: bool,
    pub q_shape: Vec<usize>,
    pub r_shape: Vec<usize>,
    pub pad_q: bool,
    pub empty: bool,
}

/// `qr(a, mode)` (NumPy `linalg.qr`): `mode` is `"reduced"` or `"complete"`; any other
/// mode is `ShapeMismatch`, checked after the array.
pub fn qr(a: &ArrayDesc, mode: &str) -> (r: Result<QrPlan, OpError>)
    ensures
        match decomp_check(a) {
            Err(e) => r == Err::<QrPlan, OpError>(e),
            Ok(()) => if mode@ != "reduced"@ && mode@ != "complete"@ {
                r == Err::<QrPlan, OpError>(OpError::ShapeMismatch)
            } else {
                r matches Ok(p) && {
                    let m = a.shape()[0];
                    let n = a.shape()[1];
                    let k = if m <= n { m } else { n };
                    &&& p.m == m && p.n == n && p.k == k
                    &&& p.complete == (mode@ == "complete"@)
                    &&& p.q_shape@ == (if p.complete { seq![m, m] } else { seq![m, k] })
                    &&& p.r_shape@ == (if p.complete { seq![m, n] } else { seq![k, n] })
                    &&& p.pad_q == (p.complete && m > n && n > 0)
                    &&& p.empty == (m == 0 || n == 0)
                }
            },
        },
{
    match decomp_checks(a) {
        Ok(()) => {},
        Err(e) => {
            return Err(e);
        },
    }
    proof {
        reveal_strlit("reduced");
        reveal_strlit("complete");
        assert("reduced"@.len() == 7 && "complete"@.len() == 8);
    }
    let complete = if str_is(mode, "reduced") {
        false
    } else if str_is(mode, "complete") {
        true
    } else {
        return Err(OpError::ShapeMismatch);
    };
    let m = a.layout.shape[0];
    let n = a.layout.shape[1];
    let k = if m <= n {
        m
    } else {
        n
    };
    let empty = m == 0 || n == 0;
    let q_shape = if complete {
        vec![m, m]
    } else {
        vec![m, k]
    };
    let r_shape = if complete {
        vec![m, n]
    } else {
        vec![k, n]
    };
    assert(complete == (mode@ == "complete"@));
    Ok(QrPlan { m, n, k, complete, q_shape, r_shape, pad_q: complete && m > n && !empty, empty })
}

/// `size` zero bytes.
pub open spec fn zero_bytes(size: nat) -> Seq<u8> {
    Seq::new(size, |i: int| 0u8)
}

/// The row-major `R` factor, `r_rows x n`, from the column-major `m x n` buffer left
/// by the Householder factorization: `R[i][j]` is entry `(i, j)` of that buffer for
/// `i < k` and `i <= j`, and zero elsewhere.
pub fn assemble_upper_r(cm: &[u8], m: usize, n: usize, k: usize, r_rows: usize, elem: usize) -> (r: Vec<u8>)
    requires
        cm@.len() == m * n * elem,
        m * n * elem <= isize::MAX,
        k <= m,
        elem >= 1,
        r_rows * n * elem <= isize::MAX,
    ensures
        r@.len() == r_rows * n * elem,
        forall|i: int, j: int|
            0 <= i < r_rows && 0 <= j < n ==> #[trigger] block(r@, i * n + j, elem as int) == if i
                < k && i <= j {
                block(cm@, i + j * m, elem as int)
            } else {
                zero_bytes(elem as nat)
            },
{
    let mut r: Vec<u8> = Vec::new();
    let mut t: usize = 0;
    proof {
        assert(r_rows * n <= r_rows * n * elem) by (nonlinear_arith)
            requires
                elem >= 1,
                r_rows >= 0,
                n >= 0,
        ;
    }
    let total = r_rows * n;
    proof {
        assert(total * elem == r_rows * n * elem) by (nonlinear_arith)
            requires
                total == r_rows * n,
        ;
    }
    while t < total
        invariant
            total == r_rows * n,
            cm@.len() == m * n * elem,
            m * n * elem <= isize::MAX,
            elem >= 1,
            k <= m,
            total * elem <= isize::MAX,
            t <= total,
            r@.len() == t * elem,
            forall|u: int|
                0 <= u < t ==> #[trigger] block(r@, u, elem as int) == if u / (n as int) < k && u
                    / (n as int) <= u % (n as int) {
                    block(cm@, u / (n as int) + (u % (n as int)) * m, elem as int)
                } else {
                    zero_bytes(elem as nat)
                },
        decreases total - t,
    {
        proof {
            assert(n > 0) by (nonlinear_arith)
                requires
                    t < total,
                    total == r_rows * n,
            ;
        }
        let i = t / n;
        let j = t % n;
        let copy = i < k && i <= j;
        let ghost before = r@;
        let ghost want: Seq<u8> = if copy {
            block(cm@, i + j * m, elem as int)
        } else {
            zero_bytes(elem as nat)
        };
        let mut src: usize = 0;
        if copy {
            proof {
                assert(i < m && j < n);
                assert((i + j * m + 1) * elem <= m * n * elem) by (nonlinear_arith)
                    requires
                        i < m,
                        j < n,
                        0 <= i,
                        0 <= j,
                        elem >= 1,
                ;
                assert(j * m <= i + j * m <= (i + j * m) * elem) by (nonlinear_arith)
                    requires
                        elem >= 1,
                        0 <= i,
                        0 <= j,
                        m >= 0,
                ;
                assert((i + j * m) * elem + elem == (i + j * m + 1) * elem) by (nonlinear_arith);
            }
            src = (i + j * m) * elem;
        }
        let mut b: usize = 0;
        while b < elem
            invariant
                cm@.len() == m * n * elem,
                m * n * elem <= isize::MAX,
                copy ==> src + elem <= cm@.len() && src == (i + j * m) * elem && src + elem == (i + j
                    * m + 1) * elem,
                want == (if copy {
                    block(cm@, i + j * m, elem as int)
                } else {
                    zero_bytes(elem as nat)
                }),
                b <= elem,
                r@.len() == t * elem + b,
                r@.subrange(0, t * elem) == before,
                before.len() == t * elem,
                total * elem <= isize::MAX,
                t < total,
                forall|x: int| 0 <= x < b ==> #[trigger] r@[t * elem + x] == want[x],
            decreases elem - b,
        {
            if copy {
                r.push(cm[src + b]);
            } else {
                r.push(0);
            }
            assert(r@.subrange(0, t * elem) =~= before);
            b = b + 1;
        }
        proof {
            lemma_append_elem(before, r@, t as int, elem as int, want);
            assert(i == t as int / (n as int) && j == t as int % (n as int));
        }
        t = t + 1;
    }
    proof {
        assert forall|i: int, j: int| 0 <= i < r_rows && 0 <= j < n implies #[trigger] block(
            r@,
            i * n + j,
            elem as int,
        ) == if i < k && i <= j {
            block(cm@, i + j * m, elem as int)
        } else {
            zero_bytes(elem as nat)
        } by {
            let u = i * n + j;
            assert(u / (n as int) == i && u % (n as int) == j) by (nonlinear_arith)
                requires
                    u == i * n + j,
                    0 <= j < n,
                    0 <= i,
            ;
            assert(0 <= u < total) by (nonlinear_arith)
                requires
                    u == i * n + j,
                    0 <= j < n,
                    0 <= i < r_rows,
                    total == r_rows * n,
            ;
        }
    }
    r
}

/// Appending one element of `size` bytes keeps the earlier elements.
pub(crate) proof fn lemma_append_elem(before: Seq<u8>, after: Seq<u8>, i: int, size: int, elem: Seq<u8>)
    requires
        0 <= i,
        size >= 0,
        elem.len() == size,
        before.len() == i * size,
        after.len() == i * size + size,
        after.subrange(0, i * size) == before,
        forall|t: int| 0 <= t < size ==> #[trigger] after[i * size + t] == elem[t],
    ensures
        after.len() == (i + 1) * size,
        block(after, i, size) == elem,
        forall|j: int| 0 <= j < i ==> #[trigger] block(after, j, size) == block(before, j, size),
{
    assert((i + 1) * size == i * size + size) by (nonlinear_arith);
    assert(block(after, i, size) =~= elem) by {
        assert forall|t: int| 0 <= t < size implies #[trigger] block(after, i, size)[t] == elem[t] by {
            assert(after[i * size + t] == elem[t]);
        }
    }
    assert forall|j: int| 0 <= j < i implies #[trigger] block(after, j, size) == block(
        before,
        j,
        size,
    ) by {
        assert((j + 1) * size <= i * size) by (nonlinear_arith)
            requires
                j + 1 <= i,
                size >= 0,
        ;
        assert(j * size >= 0 && (j + 1) * size == j * size + size) by (nonlinear_arith)
            requires
                j >= 0,
                size >= 0,
        ;
        assert forall|t: int| 0 <= t < size implies #[trigger] block(after, j, size)[t]
            == block(before, j, size)[t] by {
            assert(j * size + t < i * size);
            assert(after.subrange(0, i * size)[j * size + t] == after[j * size + t]);
        }
        assert(block(after, j, size) =~= block(before, j, size));
    }
}

/// The `m x m` column-major buffer for the complete `Q` when `m > n`: the first `k`
/// columns are the reflector columns of the `m x n` factorization buffer, the rest
/// zero.
pub fn pad_q_columns(a: &[u8], m: usize, n: usize, k: usize, elem: usize) -> (q: Vec<u8>)
    requires
        a@.len() == m * n * elem,
        m * n * elem <= isize::MAX,
        k <= n,
        elem >= 1,
        m * m * elem <= isize::MAX,
    ensures
        q@.len() == m * m * elem,
        forall|x: int|
            0 <= x < m * m ==> #[trigger] block(q@, x, elem as int) == if x < k * m {
                block(a@, x, elem as int)
            } else {
                zero_bytes(elem as nat)
            },
{
    let mut q: Vec<u8> = Vec::new();
    proof {
        assert(m * m <= m * m * elem) by (nonlinear_arith)
            requires
                elem >= 1,
        ;
        assert(k * m <= n * m) by (nonlinear_arith)
            requires
                k <= n,
        ;
        assert(n * m <= m * n * elem) by (nonlinear_arith)
            requires
                elem >= 1,
        ;
    }
    let total = m * m;
    let copied = k * m;
    proof {
        assert(total * elem == m * m * elem) by (nonlinear_arith)
            requires
                total == m * m,
        ;
        assert(copied * elem <= m * n * elem) by (nonlinear_arith)
            requires
                copied == k * m,
                k <= n,
        ;
    }
    let mut x: usize = 0;
    while x < total
        invariant
            total == m * m,
            copied == k * m,
            a@.len() == m * n * elem,
            m * n * elem <= isize::MAX,
            elem >= 1,
            copied * elem <= a@.len(),
            total * elem <= isize::MAX,
            x <= total,
            q@.len() == x * elem,
            forall|u: int|
                0 <= u < x ==> #[trigger] block(q@, u, elem as int) == if u < copied {
                    block(a@, u, elem as int)
                } else {
                    zero_bytes(elem as nat)
                },
        decreases total - x,
    {
        let copy = x < copied;
        let ghost before = q@;
        let ghost want: Seq<u8> = if copy {
            block(a@, x as int, elem as int)
        } else {
            zero_bytes(elem as nat)
        };
        let mut src: usize = 0;
        if copy {
            proof {
                assert((x + 1) * elem <= copied * elem && x * elem + elem == (x + 1) * elem)
                    by (nonlinear_arith)
                    requires
                        x < copied,
                        elem >= 1,
                ;
            }
            src = x * elem;
        }
        let mut b: usize = 0;
        while b < elem
            invariant
                a@.len() == m * n * elem,
                m * n * elem <= isize::MAX,
                copy ==> src + elem <= a@.len() && src == x * elem && src + elem == (x + 1) * elem,
                want == (if copy {
                    block(a@, x as int, elem as int)
                } else {
                    zero_bytes(elem as nat)
                }),
                b <= elem,
                q@.len() == x * elem + b,
                q@.subrange(0, x * elem) == before,
                before.len() == x * elem,
                total * elem <= isize::MAX,
                x < total,
                forall|y: int| 0 <= y < b ==> #[trigger] q@[x * elem + y] == want[y],
            decreases elem - b,
        {
            if copy {
                q.push(a[src + b]);
            } else {
                q.push(0);
            }
            assert(q@.subrange(0, x * elem) =~= before);
            b = b + 1;
        }
        proof {
            lemma_append_elem(before, q@, x as int, elem as int, want);
        }
        x = x + 1;
    }
    q
}

/// The elements (of `elem` bytes each) of a row-major `rows x cols` matrix listed in
/// column-major order: element `(i, j)` goes to position `i + j * rows`. This is how
/// `solve` hands a right-hand side with several columns to the column-major solver;
/// the solution comes back through the same reordering with `rows` and `cols`
/// exchanged.
pub fn to_column_major(src: &[u8], rows: usize, cols: usize, elem: usize) -> (r: Vec<u8>)
    requires
        src@.len() == rows * cols * elem,
        rows * cols * elem <= isize::MAX,
        elem >= 1,
    ensures
        r@.len() == rows * cols * elem,
        forall|i: int, j: int|
            0 <= i < rows && 0 <= j < cols ==> #[trigger] block(r@, i + j * rows, elem as int)
                == block(src@, i * cols + j, elem as int),
{
    proof {
        assert(rows * cols <= rows * cols * elem) by (nonlinear_arith)
            requires
                elem >= 1,
        ;
    }
    let total = rows * cols;
    let mut r: Vec<u8> = Vec::new();
    let mut x: usize = 0;
    while x < total
        invariant
            total == rows * cols,
            src@.len() == total * elem,
            total * elem <= isize::MAX,
            elem >= 1,
            x <= total,
            r@.len() == x * elem,
            forall|u: int|
                0 <= u < x ==> #[trigger] block(r@, u, elem as int) == block(
                    src@,
                    (u % rows as int) * cols + u / (rows as int),
                    elem as int,
                ),
        decreases total - x,
    {
        let i = x % rows;
        let j = x / rows;
        proof {
            assert(rows > 0) by (nonlinear_arith)
                requires
                    x < total,
                    total == rows * cols,
            ;
            vstd::arithmetic::div_mod::lemma_fundamental_div_mod(x as int, rows as int);
            assert(j < cols) by (nonlinear_arith)
                requires
                    x == rows * j + i,
                    x < rows * cols,
                    0 <= i,
                    rows > 0,
            ;
            assert(i * cols + j < total && (i * cols + j + 1) * elem <= total * elem) by (nonlinear_arith)
                requires
                    i < rows,
                    j < cols,
                    total == rows * cols,
                    elem >= 1,
            ;
            assert((i * cols + j) * elem + elem == (i * cols + j + 1) * elem) by (nonlinear_arith);
        }
        let start = (i * cols + j) * elem;
        let ghost before = r@;
        let ghost want = block(src@, (i * cols + j) as int, elem as int);
        let mut b: usize = 0;
        while b < elem
            invariant
                src@.len() == total * elem,
                start + elem <= src@.len(),
                want == src@.subrange(start as int, start + elem),
                b <= elem,
                r@.len() == x * elem + b,
                r@.subrange(0, x * elem) == before,
                before.len() == x * elem,
                total * elem <= isize::MAX,
                x < total,
                forall|y: int| 0 <= y < b ==> #[trigger] r@[x * elem + y] == want[y],
            decreases elem - b,
        {
            r.push(src[start + b]);
            assert(r@.subrange(0, x * elem) =~= before);
            b = b + 1;
        }
        proof {
            lemma_append_elem(before, r@, x as int, elem as int, want);
            assert((x + 1) * elem == x * elem + elem) by (nonlinear_arith);
        }
        x = x + 1;
    }
    proof {
        assert forall|i: int, j: int| 0 <= i < rows && 0 <= j < cols implies #[trigger] block(
            r@,
            i + j * rows,
            elem as int,
        ) == block(src@, i * cols + j, elem as int) by {
            let u = i + j * rows;
            assert(0 <= u < total) by (nonlinear_arith)
                requires
                    0 <= i < rows,
                    0 <= j < cols,
                    u == i + j * rows,
                    total == rows * cols,
            ;
            vstd::arithmetic::div_mod::lemma_fundamental_div_mod(u, rows as int);
            assert(u % (rows as int) == i && u / (rows as int) == j) by {
                vstd::arithmetic::div_mod::lemma_mod_multiples_vanish(j, i, rows as int);
                vstd::arithmetic::div_mod::lemma_small_mod(i as nat, rows as nat);
                vstd::arithmetic::div_mod::lemma_fundamental_div_mod_converse(u, rows as int, j, i);
            }
        }
    }
    r
}

/// Reordering a row-major `rows x cols` matrix to column-major and then reordering
/// the result (a row-major `cols x rows` matrix) the same way gives back the matrix.
pub proof fn lemma_column_major_roundtrip(src: Seq<u8>, cm: Seq<u8>, back: Seq<u8>, rows: int, cols: int, elem: int)
    requires
        rows >= 0,
        cols >= 0,
        elem >= 1,
        src.len() == rows * cols * elem,
        cm.len() == rows * cols * elem,
        back.len() == cols * rows * elem,
        forall|i: int, j: int|
            0 <= i < rows && 0 <= j < cols ==> #[trigger] block(cm, i + j * rows, elem)
                == block(src, i * cols + j, elem),
        forall|i: int, j: int|
            0 <= i < cols && 0 <= j < rows ==> #[trigger] block(back, i + j * cols, elem)
                == block(cm, i * rows + j, elem),
    ensures
        back == src,
{
    assert forall|t: int| 0 <= t < src.len() implies back[t] == src[t] by {
        let x = t / elem;
        let y = t % elem;
        vstd::arithmetic::div_mod::lemma_fundamental_div_mod(t, elem);
        assert(0 <= x < rows * cols) by (nonlinear_arith)
            requires
                t == elem * x + y,
                0 <= y < elem,
                0 <= t < rows * cols * elem,
        ;
        let i = x / cols;
        let j = x % cols;
        vstd::arithmetic::div_mod::lemma_fundamental_div_mod(x, cols);
        assert(0 <= i < rows) by (nonlinear_arith)
            requires
                x == cols * i + j,
                0 <= j < cols,
                0 <= x < rows * cols,
        ;
        assert(block(back, j + i * cols, elem) == block(cm, j * rows + i, elem));
        assert(block(cm, i + j * rows, elem) == block(src, i * cols + j, elem));
        assert(j + i * cols == x && i + j * rows == j * rows + i) by (nonlinear_arith)
            requires
                x == cols * i + j,
        ;
        assert(x * elem + y == t) by (nonlinear_arith)
            requires
                t == elem * x + y,
        ;
        assert((x + 1) * elem <= rows * cols * elem) by (nonlinear_arith)
            requires
                x + 1 <= rows * cols,
                elem >= 1,
        ;
        assert((x + 1) * elem == x * elem + elem) by (nonlinear_arith);
        assert(cols * rows * elem == rows * cols * elem) by (nonlinear_arith);
        assert(block(back, x, elem)[y] == back[t]);
        assert(block(src, x, elem)[y] == src[t]);
    }
    assert(back =~= src);
}

/// Shapes of a singular value decomposition of an `(m, n)` matrix with
/// `k = min(m, n)`: `s (k,)`; with `compute_uv`, `u (m, m)` and `vh (n, n)` when
/// `full_matrices`, `u (m, k)` and `vh (k, n)` otherwise. The factors are computed
/// at full size (`u_alloc`, `v_alloc` columns) and viewed thin.
pub struct SvdPlan {
    pub m: usize,
    pub n: usize,
    pub k: usize,
    pub u_shape: Option<Vec<usize>>,
    pub s_shape: Vec<usize>,
    pub vh_shape: Option<Vec<usize>>,
    pub u_alloc: usize,
    pub v_alloc: usize,
    pub empty: bool,
}

/// `svd(a, full_matrices, compute_uv)` (NumPy `linalg.svd`).
pub fn svd(a: &ArrayDesc, full_matrices: bool, compute_uv: bool) -> (r: Result<SvdPlan, OpError>)
    ensures
        match decomp_check(a) {
            Err(e) => r == Err::<SvdPlan, OpError>(e),
            Ok(()) => r matches Ok(p) && {
                let m = a.shape()[0];
                let n = a.shape()[1];
                let k = if m <= n { m } else { n };
                &&& p.m == m && p.n == n && p.k == k
                &&& p.s_shape@ == seq![k]
                &&& compute_uv ==> (p.u_shape matches Some(u) && u@ == seq![
                    m,
                    if full_matrices { m } else { k },
                ])
                &&& compute_uv ==> (p.vh_shape matches Some(v) && v@ == seq![
                    if full_matrices { n } else { k },
                    n,
                ])
                &&& !compute_uv ==> p.u_shape is None && p.vh_shape is None
                &&& p.u_alloc == (if compute_uv { m } else { k })
                &&& p.v_alloc == (if compute_uv { n } else { k })
                &&& p.empty == (m == 0 || n == 0)
            },
        },
{
    match decomp_checks(a) {
        Ok(()) => {},
        Err(e) => {
            return Err(e);
        },
    }
    let m = a.layout.shape[0];
    let n = a.layout.shape[1];
    let k = if m <= n {
        m
    } else {
        n
    };
    let u_cols = if full_matrices {
        m
    } else {
        k
    };
    let v_rows = if full_matrices {
        n
    } else {
        k
    };
    let u_shape = if compute_uv {
        Some(vec![m, u_cols])
    } else {
        None
    };
    let vh_shape = if compute_uv {
        Some(vec![v_rows, n])
    } else {
        None
    };
    Ok(
        SvdPlan {
            m,
            n,
            k,
            u_shape,
            s_shape: vec![k],
            vh_shape,
            u_alloc: if compute_uv {
                m
            } else {
                k
            },
            v_alloc: if compute_uv {
                n
            } else {
                k
            },
            empty: m == 0 || n == 0,
        },
    )
}

} // verus!
