//! Argument checks and plan of the one-dimensional FFTs (fft, ifft, rfft) along the
//! last axis, which run on the GPU FFT library.

use vstd::prelude::*;

use crate::array::{check_out, out_check, ArrayDesc};
use crate::dtype::{is_complex, is_gpu, is_real_float, Dtype};
use crate::error::OpError;
use crate::layout::{lemma_prod_le_nonzero_prod, lemma_nonzero_prod_concat, lemma_nonzero_prod_pos, nonzero_prod, seq_prod};
use crate::linalg::{require_musa, str_is};

verus! {

/// The `norm=` argument of the FFTs (NumPy's three modes).
#[derive(Clone, Copy, Debug, PartialEq, Eq, Structural)]
pub enum FftNorm {
    Backward,
    Ortho,
    Forward,
}

/// The factor a transform's output is multiplied by: 1, 1/N or 1/sqrt(N).
#[derive(Clone, Copy, Debug, PartialEq, Eq, Structural)]
pub enum FftScale {
    One,
    InvN,
    InvSqrtN,
}

/// The scaling of a transform: backward scales the inverse by 1/N, forward scales
/// the forward transform by 1/N, ortho scales both by 1/sqrt(N).
pub open spec fn spec_scale(norm: FftNorm, forward: bool) -> FftScale {
    match norm {
        FftNorm::Backward => if forward { FftScale::One } else { FftScale::InvN },
        FftNorm::Ortho => FftScale::InvSqrtN,
        FftNorm::Forward => if forward { FftScale::InvN } else { FftScale::One },
    }
}

/// How many factors of `1/sqrt(N)` a scaling applies.
pub open spec fn scale_exponent(s: FftScale) -> int {
    match s {
        FftScale::One => 0,
        FftScale::InvSqrtN => 1,
        FftScale::InvN => 2,
    }
}

/// Under every `norm=`, the scalings of the forward and the inverse transform
/// multiply to `1/N`, so the inverse transform undoes the forward one taken with the
/// same norm.
pub proof fn lemma_fft_norm_roundtrip(norm: FftNorm)
    ensures
        scale_exponent(spec_scale(norm, true)) + scale_exponent(spec_scale(norm, false)) == 2,
{
}

impl FftNorm {
    /// Parses `norm=`: absent or `"backward"`, `"ortho"`, `"forward"`; anything else
    /// is `ShapeMismatch`.
    pub fn parse(s: Option<&str>) -> (r: Result<FftNorm, OpError>)
        ensures
            match s {
                None => r == Ok::<FftNorm, OpError>(FftNorm::Backward),
                Some(t) => if t@ == "backward"@ {
                    r == Ok::<FftNorm, OpError>(FftNorm::Backward)
                } else if t@ == "ortho"@ {
                    r == Ok::<FftNorm, OpError>(FftNorm::Ortho)
                } else if t@ == "forward"@ {
                    r == Ok::<FftNorm, OpError>(FftNorm::Forward)
                } else {
                    r == Err::<FftNorm, OpError>(OpError::ShapeMismatch)
                },
            },
    {
        match s {
            None => Ok(FftNorm::Backward),
            Some(t) => {
                if str_is(t, "backward") {
                    Ok(FftNorm::Backward)
                } else if str_is(t, "ortho") {
                    Ok(FftNorm::Ortho)
                } else if str_is(t, "forward") {
                    Ok(FftNorm::Forward)
                } else {
                    Err(OpError::ShapeMismatch)
                }
            },
        }
    }

    /// The scaling of the forward (`forward`) or inverse transform under this norm.
    pub fn scale(self, forward: bool) -> (r: FftScale)
        ensures
            r == spec_scale(self, forward),
    {
        match self {
            FftNorm::Backward => if forward {
                FftScale::One
            } else {
                FftScale::InvN
            },
            FftNorm::Ortho => FftScale::InvSqrtN,
            FftNorm::Forward => if forward {
                FftScale::InvN
            } else {
                FftScale::One
            },
        }
    }
}

/// The library transform type: single or double precision, complex or real input.
#[derive(Clone, Copy, Debug, PartialEq, Eq, Structural)]
pub enum FftKind {
    C2C,
    Z2Z,
    R2C,
    D2Z,
}

/// The complex dtype of the result: complex input keeps its width, float32 gives
/// complex64 and float64 complex128.
pub open spec fn fft_out_dtype(d: Dtype) -> Dtype {
    if d == Dtype::Complex128 || d == Dtype::Float64 {
        Dtype::Complex128
    } else {
        Dtype::Complex64
    }
}

/// The axis is the last one (`-1` or `ndim - 1`).
pub open spec fn is_last_axis(axis: i32, ndim: int) -> bool {
    (if axis < 0 { axis + ndim } else { axis as int }) == ndim - 1
}

/// The transform length: `n`, or the length of the last axis.
pub open spec fn fft_len(a: &ArrayDesc, n: Option<usize>) -> int {
    match n {
        Some(v) => v as int,
        None => a.shape().last() as int,
    }
}

/// Output shape: the leading dimensions, then `n` (or `n / 2 + 1` for `rfft`).
pub open spec fn fft_out_shape(a: &ArrayDesc, n: Option<usize>, real_input: bool) -> Seq<usize> {
    let len = fft_len(a, n);
    a.shape().drop_last().push((if real_input { len / 2 + 1 } else { len }) as usize)
}

/// Outcome of `fft` (`forward`), `ifft` or `rfft` (`real_input`): on a MUSA device,
/// a float32/float64/complex input (real for `rfft`) of at least one dimension,
/// transformed along its last axis, with `out=` matching.
pub open spec fn fft_outcome(
    a: &ArrayDesc,
    n: Option<usize>,
    axis: i32,
    out: Option<&ArrayDesc>,
    real_input: bool,
) -> Result<(Seq<usize>, Dtype), OpError> {
    if real_input && is_complex(a.dtype) {
        Err(OpError::DtypeUnsupported)
    } else if !is_gpu(a.device) {
        Err(OpError::DeviceMismatch)
    } else if !(is_real_float(a.dtype) || is_complex(a.dtype)) {
        Err(OpError::DtypeUnsupported)
    } else if a.shape().len() == 0 || !is_last_axis(axis, a.shape().len() as int) {
        Err(OpError::ShapeMismatch)
    } else {
        let shape = fft_out_shape(a, n, real_input);
        let d = fft_out_dtype(a.dtype);
        match out_check(out, shape, d, a.device) {
            Some(e) => Err(e),
            None => Ok((shape, d)),
        }
    }
}

/// How a transform is run: `outer` rows of length `n` (the input resized along the
/// last axis when `n` differs from it, real input widened to complex first for
/// fft/ifft), each transformed into `result_len` outputs, then scaled.
pub struct FftPlan {
    pub n: usize,
    pub result_len: usize,
    pub outer: usize,
    pub out_shape: Vec<usize>,
    pub out_dtype: Dtype,
    pub kind: FftKind,
    pub forward: bool,
    pub scale: FftScale,
    pub resize: bool,
    pub widen_input: bool,
}

fn fft_impl(
    a: &ArrayDesc,
    n_arg: Option<usize>,
    axis: i32,
    norm: FftNorm,
    forward: bool,
    real_input: bool,
    out: Option<&ArrayDesc>,
) -> (r: Result<FftPlan, OpError>)
    requires
        a.shape().len() <= i32::MAX,
        nonzero_prod(a.shape()) <= usize::MAX,
    ensures
        fft_plan_matches(r, a, n_arg, axis, norm, forward, out, real_input),
{
    if real_input && (a.dtype == Dtype::Complex64 || a.dtype == Dtype::Complex128) {
        return Err(OpError::DtypeUnsupported);
    }
    match require_musa(a.device) {
        Ok(()) => {},
        Err(e) => {
            return Err(e);
        },
    }
    let d = a.dtype;
    if !(d == Dtype::Float32 || d == Dtype::Float64 || d == Dtype::Complex64 || d == Dtype::Complex128) {
        return Err(OpError::DtypeUnsupported);
    }
    let ndim = a.layout.shape.len();
    if ndim == 0 {
        return Err(OpError::ShapeMismatch);
    }
    let nd = ndim as i32;
    let axis_u: i64 = if axis < 0 {
        (axis as i64) + (nd as i64)
    } else {
        axis as i64
    };
    if axis_u != (nd as i64) - 1 {
        return Err(OpError::ShapeMismatch);
    }
    let last_dim = a.layout.shape[ndim - 1];
    let n = match n_arg {
        Some(v) => v,
        None => last_dim,
    };
    let result_len = if real_input {
        n / 2 + 1
    } else {
        n
    };
    let mut out_shape: Vec<usize> = Vec::new();
    let mut i: usize = 0;
    while i + 1 < ndim
        invariant
            ndim == a.shape().len(),
            ndim >= 1,
            i <= ndim - 1,
            out_shape@ == a.shape().take(i as int),
        decreases ndim - i,
    {
        out_shape.push(a.layout.shape[i]);
        assert(out_shape@ =~= a.shape().take(i as int + 1));
        i = i + 1;
    }
    let ghost lead = out_shape@;
    proof {
        assert(lead =~= a.shape().drop_last());
        assert(a.shape() =~= lead + seq![last_dim]);
        lemma_nonzero_prod_concat(lead, seq![last_dim]);
        lemma_nonzero_prod_pos(lead);
        lemma_nonzero_prod_pos(seq![last_dim]);
        lemma_prod_le_nonzero_prod(lead);
        let x = nonzero_prod(lead);
        let y = nonzero_prod(seq![last_dim]);
        assert(x <= x * y) by (nonlinear_arith)
            requires
                y >= 1,
                x >= 1,
        ;
    }
    let outer = crate::op_builder::shape_size(out_shape.as_slice());
    out_shape.push(result_len);
    let out_dtype = if d == Dtype::Complex128 || d == Dtype::Float64 {
        Dtype::Complex128
    } else {
        Dtype::Complex64
    };
    proof {
        assert(out_shape@ =~= fft_out_shape(a, n_arg, real_input));
    }
    match check_out(out, out_shape.as_slice(), out_dtype, a.device) {
        Ok(()) => {},
        Err(e) => {
            return Err(e);
        },
    }
    let kind = if out_dtype == Dtype::Complex64 {
        if real_input {
            FftKind::R2C
        } else {
            FftKind::C2C
        }
    } else {
        if real_input {
            FftKind::D2Z
        } else {
            FftKind::Z2Z
        }
    };
    let widen_input = !real_input && (d == Dtype::Float32 || d == Dtype::Float64);
    Ok(
        FftPlan {
            n,
            result_len,
            outer,
            out_shape,
            out_dtype,
            kind,
            forward,
            scale: norm.scale(forward),
            resize: n != last_dim,
            widen_input,
        },
    )
}

/// `r` is the plan of the transform with these arguments, or its error.
pub open spec fn fft_plan_matches(
    r: Result<FftPlan, OpError>,
    a: &ArrayDesc,
    n: Option<usize>,
    axis: i32,
    norm: FftNorm,
    forward: bool,
    out: Option<&ArrayDesc>,
    real_input: bool,
) -> bool {
    match fft_outcome(a, n, axis, out, real_input) {
        Ok((shape, d)) => r matches Ok(p) && {
            &&& p.out_shape@ == shape
            &&& p.out_dtype == d
            &&& p.n == fft_len(a, n)
            &&& p.result_len == shape.last()
            &&& p.outer == seq_prod(a.shape().drop_last())
            &&& p.forward == forward
            &&& p.scale == spec_scale(norm, forward)
            &&& p.resize == (fft_len(a, n) != a.shape().last())
            &&& p.widen_input == (!real_input && is_real_float(a.dtype))
            &&& p.kind == (if d == Dtype::Complex64 {
                if real_input { FftKind::R2C } else { FftKind::C2C }
            } else {
                if real_input { FftKind::D2Z } else { FftKind::Z2Z }
            })
        },
        Err(e) => r == Err::<FftPlan, OpError>(e),
    }
}

/// `fft(a, n, axis, norm, out)`: complex FFT along the last axis.
pub fn fft(a: &ArrayDesc, n: Option<usize>, axis: i32, norm: FftNorm, out: Option<&ArrayDesc>) -> (r:
    Result<FftPlan, OpError>)
    requires
        a.shape().len() <= i32::MAX,
        nonzero_prod(a.shape()) <= usize::MAX,
    ensures
        fft_plan_matches(r, a, n, axis, norm, true, out, false),
{
    fft_impl(a, n, axis, norm, true, false, out)
}

/// `ifft(a, n, axis, norm, out)`: inverse complex FFT along the last axis.
pub fn ifft(a: &ArrayDesc, n: Option<usize>, axis: i32, norm: FftNorm, out: Option<&ArrayDesc>) -> (r:
    Result<FftPlan, OpError>)
    requires
        a.shape().len() <= i32::MAX,
        nonzero_prod(a.shape()) <= usize::MAX,
    ensures
        fft_plan_matches(r, a, n, axis, norm, false, out, false),
{
    fft_impl(a, n, axis, norm, false, false, out)
}

/// `rfft(a, n, axis, norm, out)`: FFT of real input along the last axis, keeping the
/// `n / 2 + 1` non-redundant outputs; complex input is `DtypeUnsupported`.
pub fn rfft(a: &ArrayDesc, n: Option<usize>, axis: i32, norm: FftNorm, out: Option<&ArrayDesc>) -> (r:
    Result<FftPlan, OpError>)
    requires
        a.shape().len() <= i32::MAX,
        nonzero_prod(a.shape()) <= usize::MAX,
    ensures
        fft_plan_matches(r, a, n, axis, norm, true, out, true),
{
    fft_impl(a, n, axis, norm, true, true, out)
}

/// A transform keeps the input's precision: float64 and complex128 inputs give
/// complex128, float32 and complex64 inputs give complex64, and the result is always
/// complex. On a MUSA device, along the last axis and without `out=`, a float or
/// complex input (real for `rfft`) passes the checks.
pub proof fn lemma_fft_keeps_precision(
    a: &ArrayDesc,
    n: Option<usize>,
    axis: i32,
    out: Option<&ArrayDesc>,
    real_input: bool,
)
    ensures
        (a.dtype == Dtype::Float64 || a.dtype == Dtype::Complex128) ==> fft_out_dtype(a.dtype)
            == Dtype::Complex128,
        (a.dtype == Dtype::Float32 || a.dtype == Dtype::Complex64) ==> fft_out_dtype(a.dtype)
            == Dtype::Complex64,
        match fft_outcome(a, n, axis, out, real_input) {
            Ok((s, d)) => is_complex(d) && (d == Dtype::Complex128 <==> (a.dtype == Dtype::Float64
                || a.dtype == Dtype::Complex128)),
            Err(_) => true,
        },
        (is_gpu(a.device) && (is_real_float(a.dtype) || (!real_input && is_complex(a.dtype)))
            && a.shape().len() > 0 && is_last_axis(axis, a.shape().len() as int)) ==> fft_outcome(
            a,
            n,
            axis,
            None,
            real_input,
        ) == Ok::<(Seq<usize>, Dtype), OpError>(
            (fft_out_shape(a, n, real_input), fft_out_dtype(a.dtype)),
        ),
{
}

/// The transform kind of a plan follows the input: the double-precision kinds (D2Z,
/// Z2Z) exactly for float64/complex128 input, the real-to-complex kinds (R2C, D2Z)
/// exactly for `rfft`.
pub proof fn lemma_fft_plan_kind(
    p: FftPlan,
    a: &ArrayDesc,
    n: Option<usize>,
    axis: i32,
    norm: FftNorm,
    forward: bool,
    out: Option<&ArrayDesc>,
    real_input: bool,
)
    requires
        fft_plan_matches(Ok::<FftPlan, OpError>(p), a, n, axis, norm, forward, out, real_input),
    ensures
        (p.kind == FftKind::D2Z || p.kind == FftKind::Z2Z) <==> (a.dtype == Dtype::Float64
            || a.dtype == Dtype::Complex128),
        (p.kind == FftKind::R2C || p.kind == FftKind::D2Z) <==> real_input,
        is_complex(p.out_dtype),
{
    lemma_fft_keeps_precision(a, n, axis, out, real_input);
}

} // verus!
