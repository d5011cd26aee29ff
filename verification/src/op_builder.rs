//! Per-operation decisions of the elementwise, cast, comparison and reduction
//! operations, and the stride arithmetic their CPU paths use.

use vstd::prelude::*;

use crate::array::{check_out, out_check, ArrayDesc};
use crate::broadcast::{broadcast_shape, shape_views, spec_broadcast_shape};
use crate::dtype::{is_complex, is_integer, is_real_float, spec_element_size, Device, Dtype};
use crate::error::OpError;
use crate::layout::{
    Layout, c_strides, lemma_nonzero_prod_remove, lemma_nonzero_prod_update_one,
    lemma_prod_le_nonzero_prod, nonzero_prod, lemma_seq_prod_nonneg, lemma_seq_prod_zero, lemma_suffix_full,
    lemma_suffix_step, seq_prod,
    all_positive, coord_of, int_strides, lemma_suffix_end, lemma_unravel_step, nd_offset, offset_fits,
    offset_from, remove_at, suffix_prod,
};

verus! {

/// Offset (in elements, relative to the view's base) of the `linear_idx`-th element
/// of a view with the given shape and strides, enumerating elements in row-major order.
///
/// Negative strides (flipped views) can make the offset negative. Strides beyond
/// the shape's rank are ignored.
pub fn cpu_offset_nd(linear_idx: usize, shape: &[usize], strides: &[isize]) -> (r: isize)
    requires
        shape@.len() <= strides@.len(),
        all_positive(shape@),
        offset_fits(linear_idx as int, shape@, int_strides(strides@)),
    ensures
        r as int == nd_offset(linear_idx as int, shape@, int_strides(strides@)),
{
    let ghost st = int_strides(strides@);
    let n = shape.len();
    let mut offset: isize = 0;
    let mut idx: usize = linear_idx;
    let mut i: usize = n;
    proof {
        lemma_suffix_end(shape@);
        assert(linear_idx as int / 1 == linear_idx as int);
    }
    while i > 0
        invariant
            n == shape@.len(),
            n <= strides@.len(),
            st == int_strides(strides@),
            all_positive(shape@),
            offset_fits(linear_idx as int, shape@, st),
            i <= n,
            idx as int == linear_idx as int / suffix_prod(shape@, i as int),
            offset as int == offset_from(linear_idx as int, shape@, st, i as int),
        decreases i,
    {
        i = i - 1;
        proof {
            lemma_unravel_step(linear_idx as int, shape@, i as int);
        }
        let d = shape[i];
        let coord = idx % d;
        idx = idx / d;
        proof {
            lemma_mul_coord_bound(coord as int, strides@[i as int] as int);
            assert(st[i as int] == strides@[i as int] as int);
            assert(isize::MIN <= offset_from(linear_idx as int, shape@, st, i as int) <= isize::MAX);
        }
        let term: i128 = (coord as i128) * (strides[i] as i128);
        offset = offset + term as isize;
    }
    offset
}

/// The offset `cpu_offset_nd` computes, checked: `None` where a stride is missing, a
/// dimension is empty, or a term or partial sum of the offset leaves `isize`.
pub fn checked_offset_nd(linear_idx: usize, shape: &[usize], strides: &[isize]) -> (r: Option<isize>)
    ensures
        match r {
            Some(o) => {
                &&& shape@.len() <= strides@.len()
                &&& all_positive(shape@)
                &&& offset_fits(linear_idx as int, shape@, int_strides(strides@))
                &&& o as int == nd_offset(linear_idx as int, shape@, int_strides(strides@))
            },
            None => !(shape@.len() <= strides@.len() && all_positive(shape@) && offset_fits(
                linear_idx as int,
                shape@,
                int_strides(strides@),
            )),
        },
{
    let ghost st = int_strides(strides@);
    let ghost lin = linear_idx as int;
    let n = shape.len();
    if n > strides.len() {
        return None;
    }
    let mut j: usize = 0;
    while j < n
        invariant
            n == shape@.len(),
            j <= n,
            forall|d: int| 0 <= d < j ==> #[trigger] shape@[d] > 0,
        decreases n - j,
    {
        if shape[j] == 0 {
            return None;
        }
        j = j + 1;
    }
    let mut offset: i128 = 0;
    let mut idx: usize = linear_idx;
    let mut i: usize = n;
    proof {
        lemma_suffix_end(shape@);
        assert(lin / 1 == lin);
    }
    while i > 0
        invariant
            n == shape@.len(),
            n <= strides@.len(),
            st == int_strides(strides@),
            lin == linear_idx as int,
            all_positive(shape@),
            i <= n,
            idx as int == lin / suffix_prod(shape@, i as int),
            offset as int == offset_from(lin, shape@, st, i as int),
            forall|k: int| i <= k <= n ==> isize::MIN <= #[trigger] offset_from(lin, shape@, st, k) <= isize::MAX,
            forall|k: int| i <= k < n ==> isize::MIN <= #[trigger] (coord_of(lin, shape@, k) * st[k]) <= isize::MAX,
        decreases i,
    {
        i = i - 1;
        proof {
            lemma_unravel_step(lin, shape@, i as int);
        }
        let d = shape[i];
        let coord = idx % d;
        idx = idx / d;
        proof {
            lemma_mul_coord_bound(coord as int, strides@[i as int] as int);
            assert(st[i as int] == strides@[i as int] as int);
        }
        let term: i128 = (coord as i128) * (strides[i] as i128);
        if term < (isize::MIN as i128) || term > (isize::MAX as i128) {
            proof {
                assert(coord_of(lin, shape@, i as int) * st[i as int] == term as int);
            }
            return None;
        }
        let next: i128 = offset + term;
        if next < (isize::MIN as i128) || next > (isize::MAX as i128) {
            proof {
                assert(offset_from(lin, shape@, st, i as int) == next as int);
            }
            return None;
        }
        offset = next;
    }
    Some(offset as isize)
}

/// With row-major strides the offset of the `lin`-th element is `lin` modulo the
/// element count of dimensions `i..`, counted from dimension `i`.
proof fn lemma_offset_from_contiguous(lin: int, s: Seq<usize>, i: int)
    requires
        all_positive(s),
        lin >= 0,
        0 <= i <= s.len(),
    ensures
        offset_from(lin, s, c_strides(s), i) == lin % suffix_prod(s, i),
    decreases s.len() - i,
{
    if i == s.len() {
        lemma_suffix_end(s);
    } else {
        lemma_offset_from_contiguous(lin, s, i + 1);
        lemma_suffix_step(s, i);
        crate::layout::lemma_suffix_positive(s, i + 1);
        let p = suffix_prod(s, i + 1);
        let d = s[i] as int;
        assert(c_strides(s)[i] == p);
        vstd::arithmetic::div_mod::lemma_breakdown(lin, p, d);
        assert(p * d == d * p && ((lin / p) % d) * p == p * ((lin / p) % d)) by (nonlinear_arith);
    }
}

/// With the row-major strides of its shape, the offset of the `lin`-th element of a
/// view (as `cpu_offset_nd` computes it) is `lin` itself.
pub proof fn lemma_offset_nd_contiguous(lin: int, shape: Seq<usize>)
    requires
        all_positive(shape),
        0 <= lin < seq_prod(shape),
    ensures
        nd_offset(lin, shape, c_strides(shape)) == lin,
{
    lemma_offset_from_contiguous(lin, shape, 0);
    lemma_suffix_full(shape);
    vstd::arithmetic::div_mod::lemma_small_mod(lin as nat, seq_prod(shape) as nat);
}

/// Offset of input element `k` along `axis` for output element `out_idx` of a
/// reduction: `out_idx` enumerates (row-major) the dimensions other than `axis`.
pub open spec fn reduce_offset(
    out_idx: int,
    shape: Seq<usize>,
    strides: Seq<int>,
    axis: int,
    k: int,
) -> int {
    nd_offset(out_idx, remove_at(shape, axis), remove_at(strides, axis)) + k * strides[axis]
}

/// Partial sums of the reduction offset, accumulated from the last dimension down to
/// dimension `i` of the input.
pub open spec fn reduce_partial(
    out_idx: int,
    shape: Seq<usize>,
    strides: Seq<int>,
    axis: int,
    k: int,
    i: int,
) -> int {
    let rs = remove_at(shape, axis);
    let rst = remove_at(strides, axis);
    if i > axis {
        offset_from(out_idx, rs, rst, i - 1)
    } else {
        offset_from(out_idx, rs, rst, i) + k * strides[axis]
    }
}

/// Every term and partial sum of the reduction offset fits in `isize`.
pub open spec fn reduce_offset_fits(
    out_idx: int,
    shape: Seq<usize>,
    strides: Seq<int>,
    axis: int,
    k: int,
) -> bool {
    &&& offset_fits(out_idx, remove_at(shape, axis), remove_at(strides, axis))
    &&& isize::MIN <= k * strides[axis] <= isize::MAX
    &&& forall|i: int|
        0 <= i <= shape.len() ==> isize::MIN <= #[trigger] reduce_partial(
            out_idx,
            shape,
            strides,
            axis,
            k,
            i,
        ) <= isize::MAX
}

/// CPU offset of input element `k` along `axis` feeding output element `out_idx`.
///
/// The offset is accumulated as an `isize` and returned reinterpreted as `usize`
/// (negative offsets of flipped views wrap around, as in pointer arithmetic).
pub fn cpu_reduce_offset(
    out_idx: usize,
    in_shape: &[usize],
    in_strides: &[isize],
    axis: usize,
    k: usize,
) -> (r: usize)
    requires
        in_shape@.len() == in_strides@.len(),
        axis < in_shape@.len(),
        in_shape@.len() <= 33,
        all_positive(remove_at(in_shape@, axis as int)),
        reduce_offset_fits(
            out_idx as int,
            in_shape@,
            int_strides(in_strides@),
            axis as int,
            k as int,
        ),
    ensures
        r == (reduce_offset(
            out_idx as int,
            in_shape@,
            int_strides(in_strides@),
            axis as int,
            k as int,
        ) as isize) as usize,
{
    let ghost st = int_strides(in_strides@);
    let ghost rs = remove_at(in_shape@, axis as int);
    let ghost rst = remove_at(st, axis as int);
    let n = in_shape.len();
    let mut offset: isize = 0;
    let mut tmp: usize = out_idx;
    let mut i: usize = n;
    proof {
        lemma_suffix_end(rs);
        assert(out_idx as int / 1 == out_idx as int);
        assert(rs.len() == n - 1);
    }
    while i > 0
        invariant
            n == in_shape@.len(),
            n == in_strides@.len(),
            axis < n,
            st == int_strides(in_strides@),
            rs == remove_at(in_shape@, axis as int),
            rst == remove_at(st, axis as int),
            rs.len() == n - 1,
            all_positive(rs),
            reduce_offset_fits(out_idx as int, in_shape@, st, axis as int, k as int),
            i <= n,
            tmp as int == out_idx as int / suffix_prod(
                rs,
                if i > axis {
                    i - 1
                } else {
                    i as int
                },
            ),
            offset as int == reduce_partial(out_idx as int, in_shape@, st, axis as int, k as int, i as int),
        decreases i,
    {
        i = i - 1;
        assert(st[axis as int] == in_strides@[axis as int] as int);
        if i == axis {
            proof {
                lemma_mul_coord_bound(k as int, in_strides@[axis as int] as int);
                assert(isize::MIN <= reduce_partial(out_idx as int, in_shape@, st, axis as int, k as int, i as int) <= isize::MAX);
            }
            let term: i128 = (k as i128) * (in_strides[axis] as i128);
            offset = offset + term as isize;
        } else {
            let ghost j: int = if i > axis {
                i - 1
            } else {
                i as int
            };
            assert(rs[j] == in_shape@[i as int]);
            assert(rst[j] == st[i as int]);
            proof {
                lemma_unravel_step(out_idx as int, rs, j);
            }
            let d = in_shape[i];
            let coord = tmp % d;
            tmp = tmp / d;
            proof {
                lemma_mul_coord_bound(coord as int, in_strides@[i as int] as int);
                assert(isize::MIN <= reduce_partial(out_idx as int, in_shape@, st, axis as int, k as int, i as int) <= isize::MAX);
            }
            let term: i128 = (coord as i128) * (in_strides[i] as i128);
            offset = offset + term as isize;
        }
    }
    offset as usize
}

proof fn lemma_mul_coord_bound(a: int, b: int)
    requires
        0 <= a <= usize::MAX,
        isize::MIN <= b <= isize::MAX,
    ensures
        i128::MIN <= a * b <= i128::MAX,
{
    assert(i128::MIN <= a * b <= i128::MAX) by (nonlinear_arith)
        requires
            0 <= a <= 0xffff_ffff_ffff_ffffint,
            -0x8000_0000_0000_0000int <= b <= 0x7fff_ffff_ffff_ffffint,
    ;
}


// ── Kernel identities ──────────────────────────────────────────

/// Binary elementwise operations.
#[derive(Clone, Copy, Debug, PartialEq, Eq, Structural)]
pub enum BinaryKernel {
    Add,
    Sub,
    Mul,
    Div,
    Pow,
}

impl BinaryKernel {
    /// Operation name used in diagnostics.
    pub fn name(&self) -> (r: &'static str)
        ensures
            r@ == match *self {
                BinaryKernel::Add => "add"@,
                BinaryKernel::Sub => "sub"@,
                BinaryKernel::Mul => "mul"@,
                BinaryKernel::Div => "div"@,
                BinaryKernel::Pow => "pow"@,
            },
    {
        match self {
            BinaryKernel::Add => "add",
            BinaryKernel::Sub => "sub",
            BinaryKernel::Mul => "mul",
            BinaryKernel::Div => "div",
            BinaryKernel::Pow => "pow",
        }
    }
}

/// Unary elementwise operations.
#[derive(Clone, Copy, Debug, PartialEq, Eq, Structural)]
pub enum UnaryKernel {
    Sin,
    Cos,
    Exp,
    Log,
    Abs,
    Sign,
    Neg,
}

impl UnaryKernel {
    /// Operation name used in diagnostics.
    pub fn name(&self) -> (r: &'static str)
        ensures
            r@ == match *self {
                UnaryKernel::Sin => "sin"@,
                UnaryKernel::Cos => "cos"@,
                UnaryKernel::Exp => "exp"@,
                UnaryKernel::Log => "log"@,
                UnaryKernel::Abs => "abs"@,
                UnaryKernel::Sign => "sign"@,
                UnaryKernel::Neg => "neg"@,
            },
    {
        match self {
            UnaryKernel::Sin => "sin",
            UnaryKernel::Cos => "cos",
            UnaryKernel::Exp => "exp",
            UnaryKernel::Log => "log",
            UnaryKernel::Abs => "abs",
            UnaryKernel::Sign => "sign",
            UnaryKernel::Neg => "neg",
        }
    }
}

/// Elementwise comparisons (boolean output).
#[derive(Clone, Copy, Debug, PartialEq, Eq, Structural)]
pub enum CompareKernel {
    Eq,
    Ne,
    Lt,
    Gt,
    Le,
    Ge,
}

impl CompareKernel {
    /// Operation name used in diagnostics.
    pub fn name(&self) -> (r: &'static str)
        ensures
            r@ == match *self {
                CompareKernel::Eq => "eq"@,
                CompareKernel::Ne => "ne"@,
                CompareKernel::Lt => "lt"@,
                CompareKernel::Gt => "gt"@,
                CompareKernel::Le => "le"@,
                CompareKernel::Ge => "ge"@,
            },
    {
        match self {
            CompareKernel::Eq => "eq",
            CompareKernel::Ne => "ne",
            CompareKernel::Lt => "lt",
            CompareKernel::Gt => "gt",
            CompareKernel::Le => "le",
            CompareKernel::Ge => "ge",
        }
    }
}

/// Reductions along an axis.
#[derive(Clone, Copy, Debug, PartialEq, Eq, Structural)]
pub enum ReduceKernel {
    Sum,
    Prod,
    Max,
    Min,
    Mean,
    Argmax,
    Argmin,
}

/// argmax and argmin return int64 positions instead of values.
pub open spec fn is_index_reduction(k: ReduceKernel) -> bool {
    k == ReduceKernel::Argmax || k == ReduceKernel::Argmin
}

/// The reductions that need a total order (undefined for complex numbers).
pub open spec fn is_ordering_reduction(k: ReduceKernel) -> bool {
    k == ReduceKernel::Max || k == ReduceKernel::Min || is_index_reduction(k)
}

impl ReduceKernel {
    /// Operation name used in diagnostics.
    pub fn name(&self) -> (r: &'static str)
        ensures
            r@ == match *self {
                ReduceKernel::Sum => "sum"@,
                ReduceKernel::Prod => "prod"@,
                ReduceKernel::Max => "max"@,
                ReduceKernel::Min => "min"@,
                ReduceKernel::Mean => "mean"@,
                ReduceKernel::Argmax => "argmax"@,
                ReduceKernel::Argmin => "argmin"@,
            },
    {
        match self {
            ReduceKernel::Sum => "sum",
            ReduceKernel::Prod => "prod",
            ReduceKernel::Max => "max",
            ReduceKernel::Min => "min",
            ReduceKernel::Mean => "mean",
            ReduceKernel::Argmax => "argmax",
            ReduceKernel::Argmin => "argmin",
        }
    }

    /// Whether the output holds int64 positions (argmax/argmin).
    pub fn output_is_index(&self) -> (r: bool)
        ensures
            r == is_index_reduction(*self),
    {
        match self {
            ReduceKernel::Argmax | ReduceKernel::Argmin => true,
            _ => false,
        }
    }
}

// ── Casts ──────────────────────────────────────────────────────

/// The dtype conversions that have a cast kernel.
///
/// Sources: every integer dtype, float32, float64 (and complex64 only towards
/// complex128). Targets: float32, float64, int64, and complex64/complex128 from a
/// real float. Bool, float16 and bfloat16 have no cast in either direction, and a
/// cast to the same dtype is not a cast.
pub open spec fn cast_supported(src: Dtype, dst: Dtype) -> bool {
    if is_complex(src) {
        src == Dtype::Complex64 && dst == Dtype::Complex128
    } else if !(is_integer(src) || is_real_float(src)) {
        false
    } else {
        &&& (is_real_float(dst) || dst == Dtype::Int64 || is_complex(dst))
        &&& (is_complex(dst) ==> is_real_float(src))
        &&& src != dst
    }
}

/// Checks that a cast kernel exists for `src -> dst`.
pub fn validate_cast_pair(src: Dtype, dst: Dtype) -> (r: Result<(), OpError>)
    ensures
        r == (if cast_supported(src, dst) {
            Ok::<(), OpError>(())
        } else {
            Err::<(), OpError>(OpError::DtypeUnsupported)
        }),
{
    match src {
        Dtype::Int8 | Dtype::Int16 | Dtype::Int32 | Dtype::Int64 | Dtype::Uint8 | Dtype::Uint16
        | Dtype::Uint32 | Dtype::Uint64 | Dtype::Float32 | Dtype::Float64 => {},
        Dtype::Complex64 | Dtype::Complex128 => {
            if dst == Dtype::Complex128 && src == Dtype::Complex64 {
                return Ok(());
            }
            return Err(OpError::DtypeUnsupported);
        },
        _ => {
            return Err(OpError::DtypeUnsupported);
        },
    }
    match dst {
        Dtype::Float32 | Dtype::Float64 | Dtype::Int64 | Dtype::Complex64 | Dtype::Complex128 => {},
        _ => {
            return Err(OpError::DtypeUnsupported);
        },
    }
    if dst.is_complex() && !src.is_real_float() {
        return Err(OpError::DtypeUnsupported);
    }
    if src == dst {
        return Err(OpError::DtypeUnsupported);
    }
    Ok(())
}


// ── Elementwise plans ──────────────────────────────────────────

/// `out` shares its buffer with `x` and `x` is read directly (no conversion copy is
/// made because `x` already has the compute dtype).
pub open spec fn aliases(out: Option<&ArrayDesc>, x: &ArrayDesc, compute: Dtype) -> bool {
    out matches Some(o) && o.buffer == x.buffer && x.dtype == compute
}

/// The shape, dtype and input conversions an elementwise operation settles on.
pub struct ElementwisePlan {
    pub out_shape: Vec<usize>,
    pub out_dtype: Dtype,
    /// The dtype the kernel computes in.
    pub compute_dtype: Dtype,
    /// The first input is converted to the compute dtype first.
    pub cast_a: bool,
    /// The second input is converted to the compute dtype first.
    pub cast_b: bool,
}

/// Compute dtypes of the binary arithmetic kernels: float32/float64 for all,
/// complex64/complex128 for everything but `pow`.
pub open spec fn binary_dtype_ok(d: Dtype, k: BinaryKernel) -> bool {
    is_real_float(d) || (is_complex(d) && k != BinaryKernel::Pow)
}

/// Compute dtypes of the comparison kernels: float32/float64 for all, complex only for
/// `eq`/`ne` (complex numbers have no order).
pub open spec fn compare_dtype_ok(d: Dtype, k: CompareKernel) -> bool {
    is_real_float(d) || (is_complex(d) && (k == CompareKernel::Eq || k == CompareKernel::Ne))
}

/// Outcome of the argument checks of a two-input elementwise operation, in the
/// order they run: devices, broadcast, dtype promotion (its result is given),
/// the kernel's dtype whitelist, `out=`, the input conversions, aliasing.
pub open spec fn two_input_outcome(
    a: &ArrayDesc,
    b: &ArrayDesc,
    out: Option<&ArrayDesc>,
    promoted: Result<Dtype, OpError>,
    dtype_ok: bool,
    out_dtype: Dtype,
) -> Result<(Seq<usize>, Dtype), OpError> {
    if a.device != b.device {
        Err(OpError::DeviceMismatch)
    } else {
        match spec_broadcast_shape(seq![a.shape(), b.shape()]) {
            None => Err(OpError::ShapeMismatch),
            Some(shape) => match promoted {
                Err(e) => Err(e),
                Ok(d) => if !dtype_ok {
                    Err(OpError::DtypeUnsupported)
                } else {
                    match out_check(out, shape, out_dtype, a.device) {
                        Some(e) => Err(e),
                        None => if a.dtype != d && !cast_supported(a.dtype, d) {
                            Err(OpError::DtypeUnsupported)
                        } else if b.dtype != d && !cast_supported(b.dtype, d) {
                            Err(OpError::DtypeUnsupported)
                        } else if aliases(out, a, d) || aliases(out, b, d) {
                            Err(OpError::AliasDetected)
                        } else {
                            Ok((shape, d))
                        },
                    }
                },
            },
        }
    }
}

/// Outcome of `add`/`sub`/`mul`/`div`/`pow` on `a`, `b` given the promoted dtype.
pub open spec fn binary_outcome(
    a: &ArrayDesc,
    b: &ArrayDesc,
    out: Option<&ArrayDesc>,
    promoted: Result<Dtype, OpError>,
    kernel: BinaryKernel,
) -> Result<(Seq<usize>, Dtype), OpError> {
    match promoted {
        Ok(d) => two_input_outcome(a, b, out, promoted, binary_dtype_ok(d, kernel), d),
        Err(_) => two_input_outcome(a, b, out, promoted, true, Dtype::Bool),
    }
}

/// Outcome of a comparison on `a`, `b` given the promoted dtype; the output is bool.
pub open spec fn compare_outcome(
    a: &ArrayDesc,
    b: &ArrayDesc,
    out: Option<&ArrayDesc>,
    promoted: Result<Dtype, OpError>,
    kernel: CompareKernel,
) -> Result<(Seq<usize>, Dtype), OpError> {
    match promoted {
        Ok(d) => two_input_outcome(a, b, out, promoted, compare_dtype_ok(d, kernel), Dtype::Bool),
        Err(_) => two_input_outcome(a, b, out, promoted, true, Dtype::Bool),
    }
}

/// Runs the argument checks shared by binary arithmetic and comparisons.
fn two_input_plan(
    a: &ArrayDesc,
    b: &ArrayDesc,
    out: Option<&ArrayDesc>,
    promoted: Result<Dtype, OpError>,
    dtype_ok: bool,
    out_dtype: Dtype,
) -> (r: Result<ElementwisePlan, OpError>)
    ensures
        match two_input_outcome(a, b, out, promoted, dtype_ok, out_dtype) {
            Ok((shape, d)) => r matches Ok(p) && p.out_shape@ == shape && p.compute_dtype == d
                && p.out_dtype == out_dtype && p.cast_a == (a.dtype != d) && p.cast_b == (b.dtype
                != d),
            Err(e) => r == Err::<ElementwisePlan, OpError>(e),
        },
{
    if a.device != b.device {
        return Err(OpError::DeviceMismatch);
    }
    let shapes = vec![a.layout.copy_shape(), b.layout.copy_shape()];
    assert(shape_views(shapes@) =~= seq![a.shape(), b.shape()]);
    let out_shape = match broadcast_shape(shapes.as_slice()) {
        Ok(s) => s,
        Err(e) => {
            return Err(e);
        },
    };
    let d = match promoted {
        Ok(d) => d,
        Err(e) => {
            return Err(e);
        },
    };
    if !dtype_ok {
        return Err(OpError::DtypeUnsupported);
    }
    match check_out(out, out_shape.as_slice(), out_dtype, a.device) {
        Ok(()) => {},
        Err(e) => {
            return Err(e);
        },
    }
    let cast_a = a.dtype != d;
    let cast_b = b.dtype != d;
    if cast_a {
        match validate_cast_pair(a.dtype, d) {
            Ok(()) => {},
            Err(e) => {
                return Err(e);
            },
        }
    }
    if cast_b {
        match validate_cast_pair(b.dtype, d) {
            Ok(()) => {},
            Err(e) => {
                return Err(e);
            },
        }
    }
    if let Some(o) = out {
        if (o.buffer == a.buffer && !cast_a) || (o.buffer == b.buffer && !cast_b) {
            return Err(OpError::AliasDetected);
        }
    }
    Ok(ElementwisePlan { out_shape, out_dtype, compute_dtype: d, cast_a, cast_b })
}

/// Argument checks of `add`/`sub`/`mul`/`div`/`pow`.
///
/// `promoted` is the result of promoting the two input dtypes. The inputs must be on
/// one device and broadcast together; the promoted dtype must be float32/float64, or
/// complex for all but `pow`; `out=` must have the broadcast shape, the promoted dtype
/// and the inputs' device; inputs of another dtype are converted (a conversion must
/// exist); and `out=` must not be a buffer the kernel reads.
pub fn binary_elementwise(
    a: &ArrayDesc,
    b: &ArrayDesc,
    out: Option<&ArrayDesc>,
    promoted: Result<Dtype, OpError>,
    kernel: BinaryKernel,
) -> (r: Result<ElementwisePlan, OpError>)
    ensures
        match binary_outcome(a, b, out, promoted, kernel) {
            Ok((shape, d)) => r matches Ok(p) && p.out_shape@ == shape && p.out_dtype == d
                && p.compute_dtype == d && p.cast_a == (a.dtype != d) && p.cast_b == (b.dtype != d),
            Err(e) => r == Err::<ElementwisePlan, OpError>(e),
        },
{
    match promoted {
        Ok(d) => {
            let ok = d.is_real_float() || (d.is_complex() && kernel != BinaryKernel::Pow);
            two_input_plan(a, b, out, promoted, ok, d)
        },
        Err(_) => two_input_plan(a, b, out, promoted, true, Dtype::Bool),
    }
}

/// Argument checks of `eq`/`ne`/`lt`/`gt`/`le`/`ge`.
///
/// As for binary arithmetic, but the compute whitelist is float32/float64 plus complex
/// for `eq`/`ne` only, and the output (and `out=`) dtype is bool.
pub fn comparison_elementwise(
    a: &ArrayDesc,
    b: &ArrayDesc,
    out: Option<&ArrayDesc>,
    promoted: Result<Dtype, OpError>,
    kernel: CompareKernel,
) -> (r: Result<ElementwisePlan, OpError>)
    ensures
        match compare_outcome(a, b, out, promoted, kernel) {
            Ok((shape, d)) => r matches Ok(p) && p.out_shape@ == shape && p.out_dtype == Dtype::Bool
                && p.compute_dtype == d && p.cast_a == (a.dtype != d) && p.cast_b == (b.dtype != d),
            Err(e) => r == Err::<ElementwisePlan, OpError>(e),
        },
{
    match promoted {
        Ok(d) => {
            let ok = d.is_real_float() || (d.is_complex() && (kernel == CompareKernel::Eq
                || kernel == CompareKernel::Ne));
            two_input_plan(a, b, out, promoted, ok, Dtype::Bool)
        },
        Err(_) => two_input_plan(a, b, out, promoted, true, Dtype::Bool),
    }
}


/// Output dtype of a unary operation: `abs` of a complex array is real of the same
/// precision; everything else keeps the input dtype.
pub open spec fn unary_out_dtype(d: Dtype, k: UnaryKernel) -> Dtype {
    if k == UnaryKernel::Abs && d == Dtype::Complex64 {
        Dtype::Float32
    } else if k == UnaryKernel::Abs && d == Dtype::Complex128 {
        Dtype::Float64
    } else {
        d
    }
}

/// Outcome of the argument checks of a one-input operation whose kernel accepts the
/// input dtype iff `dtype_ok`: whitelist, `out=`, aliasing.
pub open spec fn one_input_outcome(
    a: &ArrayDesc,
    out: Option<&ArrayDesc>,
    dtype_ok: bool,
    out_dtype: Dtype,
) -> Result<(Seq<usize>, Dtype), OpError> {
    if !dtype_ok {
        Err(OpError::DtypeUnsupported)
    } else {
        match out_check(out, a.shape(), out_dtype, a.device) {
            Some(e) => Err(e),
            None => if out matches Some(o) && o.buffer == a.buffer {
                Err(OpError::AliasDetected)
            } else {
                Ok((a.shape(), out_dtype))
            },
        }
    }
}

/// Outcome of `sin`/`cos`/`exp`/`log`/`abs`/`sign`/`neg`: float32/float64 inputs, plus
/// complex for `neg` and `abs`.
pub open spec fn unary_outcome(a: &ArrayDesc, out: Option<&ArrayDesc>, kernel: UnaryKernel) -> Result<
    (Seq<usize>, Dtype),
    OpError,
> {
    one_input_outcome(
        a,
        out,
        is_real_float(a.dtype) || (is_complex(a.dtype) && (kernel == UnaryKernel::Neg || kernel
            == UnaryKernel::Abs)),
        unary_out_dtype(a.dtype, kernel),
    )
}

/// Outcome of `clamp`: float32/float64 only, output of the input dtype.
pub open spec fn clamp_outcome(a: &ArrayDesc, out: Option<&ArrayDesc>) -> Result<
    (Seq<usize>, Dtype),
    OpError,
> {
    one_input_outcome(a, out, is_real_float(a.dtype), a.dtype)
}

fn one_input_plan(a: &ArrayDesc, out: Option<&ArrayDesc>, dtype_ok: bool, out_dtype: Dtype) -> (r:
    Result<ElementwisePlan, OpError>)
    ensures
        match one_input_outcome(a, out, dtype_ok, out_dtype) {
            Ok((shape, d)) => r matches Ok(p) && p.out_shape@ == shape && p.out_dtype == d
                && p.compute_dtype == a.dtype && !p.cast_a && !p.cast_b,
            Err(e) => r == Err::<ElementwisePlan, OpError>(e),
        },
{
    if !dtype_ok {
        return Err(OpError::DtypeUnsupported);
    }
    let shape = a.layout.copy_shape();
    match check_out(out, shape.as_slice(), out_dtype, a.device) {
        Ok(()) => {},
        Err(e) => {
            return Err(e);
        },
    }
    if let Some(o) = out {
        if o.buffer == a.buffer {
            return Err(OpError::AliasDetected);
        }
    }
    Ok(
        ElementwisePlan {
            out_shape: shape,
            out_dtype,
            compute_dtype: a.dtype,
            cast_a: false,
            cast_b: false,
        },
    )
}

/// Argument checks of a unary elementwise operation.
///
/// float32/float64 inputs are accepted for every kernel, complex ones for `neg` and
/// `abs` only; `abs` of complex yields the real dtype of the same precision. `out=`
/// must have the input's shape, the output dtype and the input's device, and must not
/// be the input's buffer.
pub fn unary_elementwise(a: &ArrayDesc, out: Option<&ArrayDesc>, kernel: UnaryKernel) -> (r: Result<
    ElementwisePlan,
    OpError,
>)
    ensures
        match unary_outcome(a, out, kernel) {
            Ok((shape, d)) => r matches Ok(p) && p.out_shape@ == shape && p.out_dtype == d
                && p.compute_dtype == a.dtype,
            Err(e) => r == Err::<ElementwisePlan, OpError>(e),
        },
{
    let d = a.dtype;
    let ok = d.is_real_float() || (d.is_complex() && (kernel == UnaryKernel::Neg || kernel
        == UnaryKernel::Abs));
    let out_dtype = if kernel == UnaryKernel::Abs && d == Dtype::Complex64 {
        Dtype::Float32
    } else if kernel == UnaryKernel::Abs && d == Dtype::Complex128 {
        Dtype::Float64
    } else {
        d
    };
    one_input_plan(a, out, ok, out_dtype)
}

/// Argument checks of `clamp` (float32/float64 only; the bounds are converted to the
/// input dtype by the kernel).
pub fn clamp_elementwise(a: &ArrayDesc, out: Option<&ArrayDesc>) -> (r: Result<
    ElementwisePlan,
    OpError,
>)
    ensures
        match clamp_outcome(a, out) {
            Ok((shape, d)) => r matches Ok(p) && p.out_shape@ == shape && p.out_dtype == d
                && p.compute_dtype == a.dtype,
            Err(e) => r == Err::<ElementwisePlan, OpError>(e),
        },
{
    one_input_plan(a, out, a.dtype.is_real_float(), a.dtype)
}

/// Outcome of `astype(a, dtype)`: a conversion kernel must exist unless the dtype is
/// unchanged; then `out=` and aliasing are checked; a same-dtype copy of a non-empty
/// array needs a contiguous input.
pub open spec fn astype_outcome(a: &ArrayDesc, dtype: Dtype, out: Option<&ArrayDesc>) -> Result<
    (Seq<usize>, Dtype),
    OpError,
> {
    if a.dtype != dtype && !cast_supported(a.dtype, dtype) {
        Err(OpError::DtypeUnsupported)
    } else {
        match out_check(out, a.shape(), dtype, a.device) {
            Some(e) => Err(e),
            None => if out matches Some(o) && o.buffer == a.buffer {
                Err(OpError::AliasDetected)
            } else if a.dtype == dtype && seq_prod(a.shape()) > 0
                && !a.layout.spec_is_contiguous() {
                Err(OpError::DtypeUnsupported)
            } else {
                Ok((a.shape(), dtype))
            },
        }
    }
}

/// Whether some dimension of the shape is 0 (the array is empty).
pub fn has_zero_dim(shape: &[usize]) -> (r: bool)
    ensures
        r == (seq_prod(shape@) == 0),
{
    proof {
        lemma_seq_prod_zero(shape@);
    }
    let mut i: usize = 0;
    while i < shape.len()
        invariant
            i <= shape.len(),
            forall|j: int| 0 <= j < i ==> shape@[j] != 0,
        decreases shape.len() - i,
    {
        if shape[i] == 0 {
            assert(shape@[i as int] == 0);
            proof {
                lemma_seq_prod_zero(shape@);
            }
            return true;
        }
        i = i + 1;
    }
    assert(!(exists|j: int| 0 <= j < shape@.len() && shape@[j] == 0));
    false
}

/// Argument checks of `astype`: explicit dtype conversion, or a deep copy when the
/// dtype is unchanged.
pub fn astype_op(a: &ArrayDesc, dtype: Dtype, out: Option<&ArrayDesc>) -> (r: Result<
    ElementwisePlan,
    OpError,
>)
    requires
        a.layout.wf(),
    ensures
        match astype_outcome(a, dtype, out) {
            Ok((shape, d)) => r matches Ok(p) && p.out_shape@ == shape && p.out_dtype == d
                && p.cast_a == (a.dtype != d),
            Err(e) => r == Err::<ElementwisePlan, OpError>(e),
        },
{
    let src = a.dtype;
    if src != dtype {
        match validate_cast_pair(src, dtype) {
            Ok(()) => {},
            Err(e) => {
                return Err(e);
            },
        }
    }
    let shape = a.layout.copy_shape();
    match check_out(out, shape.as_slice(), dtype, a.device) {
        Ok(()) => {},
        Err(e) => {
            return Err(e);
        },
    }
    if let Some(o) = out {
        if o.buffer == a.buffer {
            return Err(OpError::AliasDetected);
        }
    }
    proof {
        lemma_seq_prod_nonneg(shape@);
    }
    if src == dtype && !has_zero_dim(shape.as_slice()) && !a.layout.is_contiguous() {
        return Err(OpError::DtypeUnsupported);
    }
    Ok(
        ElementwisePlan {
            out_shape: shape,
            out_dtype: dtype,
            compute_dtype: dtype,
            cast_a: src != dtype,
            cast_b: false,
        },
    )
}


// ── Reductions ─────────────────────────────────────────────────

/// The dtype a reduction accumulates in: float32/float64 and (for sum, prod, mean)
/// complex keep their dtype; every other input accumulates in int64, or in float64
/// for `mean`.
pub open spec fn spec_reduction_compute_dtype(d: Dtype, k: ReduceKernel) -> Dtype {
    if is_real_float(d) || is_complex(d) {
        d
    } else if k == ReduceKernel::Mean {
        Dtype::Float64
    } else {
        Dtype::Int64
    }
}

/// The compute dtype of a reduction (complex inputs only reach here for sum, prod
/// and mean).
pub fn reduction_compute_dtype(input_dtype: Dtype, kernel: ReduceKernel) -> (r: Dtype)
    requires
        !(is_complex(input_dtype) && is_ordering_reduction(kernel)),
    ensures
        r == spec_reduction_compute_dtype(input_dtype, kernel),
{
    match input_dtype {
        Dtype::Float32 => Dtype::Float32,
        Dtype::Float64 => Dtype::Float64,
        Dtype::Complex64 | Dtype::Complex128 => input_dtype,
        _ => match kernel {
            ReduceKernel::Mean => Dtype::Float64,
            _ => Dtype::Int64,
        },
    }
}

/// Output shape of a reduction over `axis` (`None`: over everything).
pub open spec fn reduce_out_shape(shape: Seq<usize>, axis: Option<usize>, keepdims: bool) -> Seq<
    usize,
> {
    match axis {
        None => if keepdims {
            Seq::new(shape.len(), |i: int| 1usize)
        } else {
            Seq::empty()
        },
        Some(ax) => if keepdims {
            shape.update(ax as int, 1usize)
        } else {
            remove_at(shape, ax as int)
        },
    }
}

/// Output dtype of a reduction.
pub open spec fn reduce_out_dtype(d: Dtype, k: ReduceKernel) -> Dtype {
    if is_index_reduction(k) {
        Dtype::Int64
    } else {
        spec_reduction_compute_dtype(d, k)
    }
}

/// Outcome of the argument checks of a single-axis (or global) reduction.
pub open spec fn reduction_outcome(
    a: &ArrayDesc,
    axis: Option<usize>,
    keepdims: bool,
    out: Option<&ArrayDesc>,
    kernel: ReduceKernel,
) -> Result<(Seq<usize>, Dtype), OpError> {
    if is_complex(a.dtype) && is_ordering_reduction(kernel) {
        Err(OpError::DtypeUnsupported)
    } else {
        let shape = reduce_out_shape(a.shape(), axis, keepdims);
        let compute = spec_reduction_compute_dtype(a.dtype, kernel);
        let od = reduce_out_dtype(a.dtype, kernel);
        match out_check(out, shape, od, a.device) {
            Some(e) => Err(e),
            None => if a.dtype != compute && !cast_supported(a.dtype, compute) {
                Err(OpError::DtypeUnsupported)
            } else if aliases(out, a, compute) {
                Err(OpError::AliasDetected)
            } else {
                Ok((shape, od))
            },
        }
    }
}

/// How a reduction is run: the kernel sees the input as `kernel_shape` and reduces
/// `kernel_axis` (of length `axis_len`) into `out_size` outputs.
pub struct ReducePlan {
    pub out_shape: Vec<usize>,
    pub out_dtype: Dtype,
    pub compute_dtype: Dtype,
    pub kernel_shape: Vec<usize>,
    pub kernel_axis: usize,
    pub axis_len: usize,
    pub out_size: usize,
    /// A global reduction of a view with non-row-major strides first copies it.
    pub materialize: bool,
}

/// Product of a shape's dimensions.
pub fn shape_size(shape: &[usize]) -> (r: usize)
    requires
        seq_prod(shape@) <= usize::MAX,
    ensures
        r == seq_prod(shape@),
{
    proof {
        lemma_suffix_end(shape@);
        lemma_suffix_full(shape@);
    }
    if has_zero_dim(shape) {
        return 0;
    }
    let mut acc: usize = 1;
    let mut i: usize = shape.len();
    while i > 0
        invariant
            i <= shape.len(),
            seq_prod(shape@) <= usize::MAX,
            seq_prod(shape@) != 0,
            acc as int == suffix_prod(shape@, i as int),
            suffix_prod(shape@, 0) == seq_prod(shape@),
        decreases i,
    {
        i = i - 1;
        proof {
            lemma_suffix_step(shape@, i as int);
            lemma_suffix_bounded(shape@, i as int);
            let a = acc as int;
            let d = shape@[i as int] as int;
            assert(d * a == a * d) by (nonlinear_arith);
        }
        acc = acc * shape[i];
    }
    acc
}

/// A non-zero product bounds every suffix product.
pub proof fn lemma_suffix_bounded(s: Seq<usize>, i: int)
    requires
        0 <= i <= s.len(),
        seq_prod(s) != 0,
    ensures
        suffix_prod(s, i) <= seq_prod(s),
        suffix_prod(s, i) >= 1,
    decreases i,
{
    lemma_seq_prod_zero(s);
    if i == 0 {
        lemma_suffix_full(s);
        lemma_seq_prod_nonneg(s);
    } else {
        lemma_suffix_bounded(s, i - 1);
        lemma_suffix_step(s, i - 1);
        lemma_seq_prod_nonneg(s.subrange(i, s.len() as int));
        let d = s[i - 1] as int;
        let t = suffix_prod(s, i);
        assert(s[i - 1] != 0);
        assert(t <= d * t) by (nonlinear_arith)
            requires
                d >= 1,
                t >= 0,
        ;
        assert(t >= 1) by (nonlinear_arith)
            requires
                d * t >= 1,
                t >= 0,
                d >= 0,
        ;
    }
}

/// A shape of ones has one element.
pub proof fn lemma_ones_prod(n: nat)
    ensures
        seq_prod(Seq::new(n, |i: int| 1usize)) == 1,
    decreases n,
{
    if n > 0 {
        lemma_ones_prod((n - 1) as nat);
        assert(Seq::new(n, |i: int| 1usize).drop_first() =~= Seq::new((n - 1) as nat, |i: int| 1usize));
    }
}

/// Builds the output shape of a reduction.
fn build_reduce_out_shape(shape: &[usize], axis: Option<usize>, keepdims: bool) -> (r: Vec<usize>)
    requires
        axis matches Some(ax) ==> ax < shape@.len(),
    ensures
        r@ == reduce_out_shape(shape@, axis, keepdims),
{
    let n = shape.len();
    let mut r: Vec<usize> = Vec::new();
    let mut i: usize = 0;
    while i < n
        invariant
            n == shape@.len(),
            axis matches Some(ax) ==> ax < n,
            i <= n,
            r@ == (match axis {
                None => if keepdims {
                    Seq::new(i as nat, |t: int| 1usize)
                } else {
                    Seq::<usize>::empty()
                },
                Some(ax) => if keepdims {
                    shape@.update(ax as int, 1usize).take(i as int)
                } else if i <= ax {
                    shape@.take(i as int)
                } else {
                    shape@.take(ax as int) + shape@.subrange(ax + 1, i as int)
                },
            }),
        decreases n - i,
    {
        match axis {
            None => {
                if keepdims {
                    r.push(1);
                }
            },
            Some(ax) => {
                if i == ax {
                    if keepdims {
                        r.push(1);
                    }
                } else {
                    r.push(shape[i]);
                }
            },
        }
        proof {
            match axis {
                None => {
                    if keepdims {
                        assert(r@ =~= Seq::new(i as nat + 1, |t: int| 1usize));
                    }
                },
                Some(ax) => {
                    if keepdims {
                        assert(r@ =~= shape@.update(ax as int, 1usize).take(i as int + 1));
                    } else if i < ax {
                        assert(r@ =~= shape@.take(i as int + 1));
                    } else {
                        assert(r@ =~= shape@.take(ax as int) + shape@.subrange(ax + 1, i as int + 1));
                    }
                },
            }
        }
        i = i + 1;
    }
    proof {
        match axis {
            None => {},
            Some(ax) => {
                if keepdims {
                    assert(shape@.update(ax as int, 1usize).take(n as int) =~= shape@.update(ax as int, 1usize));
                } else {
                    assert(shape@.take(ax as int) + shape@.subrange(ax + 1, n as int) =~= remove_at(shape@, ax as int));
                }
            },
        }
    }
    r
}

/// Argument checks and kernel parameters of `sum`/`prod`/`max`/`min`/`mean`/
/// `argmax`/`argmin` over one normalized axis, or over everything (`axis == None`).
///
/// Ordering reductions reject complex input. The output drops the reduced axis (or
/// keeps it as size 1 with `keepdims`); a global reduction yields a 0-dim array (or
/// all-ones shape). Integer inputs accumulate in int64 (float64 for `mean`), and
/// argmax/argmin always return int64. `out=` must match the output shape, dtype and
/// the input's device; a needed conversion must exist; `out=` must not be the buffer
/// the kernel reads.
pub fn reduction_axis(
    a: &ArrayDesc,
    axis: Option<usize>,
    keepdims: bool,
    out: Option<&ArrayDesc>,
    kernel: ReduceKernel,
) -> (r: Result<ReducePlan, OpError>)
    requires
        a.layout.wf(),
        axis matches Some(ax) ==> ax < a.shape().len(),
        nonzero_prod(a.shape()) <= usize::MAX,
    ensures
        match reduction_outcome(a, axis, keepdims, out, kernel) {
            Ok((shape, d)) => r matches Ok(p) && {
                &&& p.out_shape@ == shape
                &&& p.out_dtype == d
                &&& p.compute_dtype == spec_reduction_compute_dtype(a.dtype, kernel)
                &&& p.out_size == (if seq_prod(shape) == 0 { 1 } else { seq_prod(shape) })
                &&& match axis {
                    None => {
                        &&& p.kernel_shape@ == seq![seq_prod(a.shape()) as usize]
                        &&& p.kernel_axis == 0
                        &&& p.axis_len == seq_prod(a.shape())
                        &&& p.materialize == !(a.layout.istrides() == c_strides(a.shape()))
                    },
                    Some(ax) => {
                        &&& p.kernel_shape@ == a.shape()
                        &&& p.kernel_axis == ax
                        &&& p.axis_len == a.shape()[ax as int]
                        &&& !p.materialize
                    },
                }
            },
            Err(e) => r == Err::<ReducePlan, OpError>(e),
        },
{
    if a.dtype.is_complex() && (kernel == ReduceKernel::Max || kernel == ReduceKernel::Min
        || kernel == ReduceKernel::Argmax || kernel == ReduceKernel::Argmin) {
        return Err(OpError::DtypeUnsupported);
    }
    let shape = a.layout.copy_shape();
    let out_shape = build_reduce_out_shape(shape.as_slice(), axis, keepdims);
    let compute = reduction_compute_dtype(a.dtype, kernel);
    let out_dtype = if kernel.output_is_index() {
        Dtype::Int64
    } else {
        compute
    };
    match check_out(out, out_shape.as_slice(), out_dtype, a.device) {
        Ok(()) => {},
        Err(e) => {
            return Err(e);
        },
    }
    if a.dtype != compute {
        match validate_cast_pair(a.dtype, compute) {
            Ok(()) => {},
            Err(e) => {
                return Err(e);
            },
        }
    }
    if let Some(o) = out {
        if o.buffer == a.buffer && a.dtype == compute {
            return Err(OpError::AliasDetected);
        }
    }
    proof {
        lemma_prod_le_nonzero_prod(shape@);
        lemma_prod_le_nonzero_prod(out_shape@);
        match axis {
            None => {
                if keepdims {
                    lemma_ones_prod(shape@.len());
                } else {
                    assert(seq_prod(out_shape@) == 1);
                }
            },
            Some(ax) => {
                if keepdims {
                    lemma_nonzero_prod_update_one(shape@, ax as int);
                } else {
                    lemma_nonzero_prod_remove(shape@, ax as int);
                }
            },
        }
    }
    let total = shape_size(shape.as_slice());
    let (kernel_shape, kernel_axis, axis_len, materialize) = match axis {
        None => (vec![total], 0usize, total, !a.layout.has_contiguous_strides()),
        Some(ax) => (shape, ax, a.layout.shape[ax], false),
    };
    let sz = shape_size(out_shape.as_slice());
    let out_size = if sz == 0 {
        1
    } else {
        sz
    };
    Ok(
        ReducePlan {
            out_shape,
            out_dtype,
            compute_dtype: compute,
            kernel_shape,
            kernel_axis,
            axis_len,
            out_size,
            materialize,
        },
    )
}


// ── GPU reduction strategy ─────────────────────────────────────

/// `ceil(x / d)` for `d > 0`.
pub open spec fn spec_ceil_div(x: int, d: int) -> int {
    (x + d - 1) / d
}

/// `ceil(x / d)` without overflow.
pub fn ceil_div(x: usize, d: usize) -> (r: usize)
    requires
        d > 0,
    ensures
        r == spec_ceil_div(x as int, d as int),
        r <= x || x == 0,
{
    let q = x / d;
    proof {
        vstd::arithmetic::div_mod::lemma_fundamental_div_mod(x as int, d as int);
        let xi = x as int;
        let di = d as int;
        let qi = q as int;
        let m = xi % di;
        if m != 0 {
            assert(qi < xi) by (nonlinear_arith)
                requires
                    xi == di * qi + m,
                    m > 0,
                    di >= 1,
                    qi >= 0,
            ;
        }
    }
    let r = if x % d != 0 {
        q + 1
    } else {
        q
    };
    proof {
        let xi = x as int;
        let di = d as int;
        let qi = q as int;
        let ri = r as int;
        let y = xi + di - 1;
        vstd::arithmetic::div_mod::lemma_fundamental_div_mod(xi, di);
        vstd::arithmetic::div_mod::lemma_fundamental_div_mod(y, di);
        vstd::arithmetic::div_mod::lemma_mod_bound(xi, di);
        vstd::arithmetic::div_mod::lemma_mod_bound(y, di);
        let m = xi % di;
        let yq = y / di;
        let ym = y % di;
        assert(qi == xi / di);
        assert(ri == yq) by (nonlinear_arith)
            requires
                xi == di * qi + m,
                y == di * yq + ym,
                y == xi + di - 1,
                0 <= m < di,
                0 <= ym < di,
                ri == (if m != 0 {
                    qi + 1
                } else {
                    qi
                }),
                di > 0,
        ;
        assert(ri <= xi || xi == 0) by (nonlinear_arith)
            requires
                xi == di * qi + m,
                0 <= m < di,
                ri == (if m != 0 {
                    qi + 1
                } else {
                    qi
                }),
                di >= 1,
                qi >= 0,
        ;
    }
    r
}

/// How the GPU runs a reduction of `axis_len` elements per output.
#[derive(Clone, Copy, Debug, PartialEq, Eq, Structural)]
pub enum ReducePath {
    /// Partial kernels over tiles of 1024 elements, then a final pass.
    TwoStage { tiles_per_output: usize },
    /// One thread group of `group_size` threads per output.
    SmallAxis { group_size: usize },
    /// One thread per output.
    Naive,
}

/// The GPU strategy of a reduction: axes longer than 1024 go through tiled partial
/// reductions; axes of 17..=1024 elements (not argmax/argmin) get one thread group per
/// output, sized to the next power of two from 32 up to 256; anything else is reduced
/// by one thread per output.
pub fn reduce_gpu_path(axis_len: usize, kernel: ReduceKernel) -> (r: ReducePath)
    ensures
        axis_len > 1024 ==> r == (ReducePath::TwoStage {
            tiles_per_output: spec_ceil_div(axis_len as int, 1024) as usize,
        }),
        16 < axis_len <= 1024 && !is_index_reduction(kernel) ==> r == (ReducePath::SmallAxis {
            group_size: if axis_len <= 32 {
                32
            } else if axis_len <= 64 {
                64
            } else if axis_len <= 128 {
                128
            } else {
                256
            },
        }),
        axis_len <= 16 || (axis_len <= 1024 && is_index_reduction(kernel)) ==> r == (
        ReducePath::Naive),
{
    if axis_len > 1024 {
        ReducePath::TwoStage { tiles_per_output: ceil_div(axis_len, 1024) }
    } else if axis_len > 16 && !kernel.output_is_index() {
        let group_size: usize = if axis_len <= 32 {
            32
        } else if axis_len <= 64 {
            64
        } else if axis_len <= 128 {
            128
        } else {
            256
        };
        ReducePath::SmallAxis { group_size }
    } else {
        ReducePath::Naive
    }
}

/// Above this many partial results per output, partials are reduced again.
pub const MULTI_STAGE_MIN_TILES: usize = 32768;

/// Tile counts of the successive partial passes of a two-stage reduction.
///
/// Starting from `tiles` partial results per output, while there are more than
/// 32768 of them another partial pass reduces them by a factor 1024 (rounding up).
/// Returns the tile count each extra pass reads, and the count the final pass reads.
pub fn multi_stage_schedule(tiles: usize) -> (r: (Vec<usize>, usize))
    ensures
        r.0@.len() == 0 ==> r.1 == tiles,
        r.0@.len() > 0 ==> r.0@[0] == tiles,
        forall|i: int| 0 <= i < r.0@.len() ==> #[trigger] r.0@[i] > MULTI_STAGE_MIN_TILES,
        forall|i: int|
            0 <= i < r.0@.len() - 1 ==> #[trigger] r.0@[i + 1] == spec_ceil_div(
                r.0@[i] as int,
                1024,
            ),
        r.0@.len() > 0 ==> r.1 == spec_ceil_div(r.0@[r.0@.len() - 1] as int, 1024),
        r.1 <= MULTI_STAGE_MIN_TILES || r.0@.len() == 0,
        tiles <= MULTI_STAGE_MIN_TILES ==> r.0@.len() == 0,
        tiles > MULTI_STAGE_MIN_TILES ==> r.1 <= MULTI_STAGE_MIN_TILES,
{
    let mut stages: Vec<usize> = Vec::new();
    let mut t = tiles;
    while t > MULTI_STAGE_MIN_TILES
        invariant
            stages@.len() == 0 ==> t == tiles,
            stages@.len() > 0 ==> stages@[0] == tiles,
            forall|i: int| 0 <= i < stages@.len() ==> #[trigger] stages@[i] > MULTI_STAGE_MIN_TILES,
            forall|i: int|
                0 <= i < stages@.len() - 1 ==> #[trigger] stages@[i + 1] == spec_ceil_div(
                    stages@[i] as int,
                    1024,
                ),
            stages@.len() > 0 ==> t == spec_ceil_div(stages@[stages@.len() - 1] as int, 1024),
        decreases t,
    {
        stages.push(t);
        let next = ceil_div(t, 1024);
        t = next;
    }
    (stages, t)
}

/// Scratch space of the GPU prefix sum: `blocks_per_row` blocks of 256 per row; more
/// than 256 blocks add a second level of tile sums. Rows longer than 256^3 elements
/// are rejected.
pub open spec fn cumsum_scratch_outcome(axis_len: int, out_size: int) -> Result<(int, int), OpError> {
    let bpr = spec_ceil_div(axis_len, 256);
    if bpr > 65536 {
        Err(OpError::ShapeMismatch)
    } else {
        let rows = out_size / (if axis_len > 1 {
            axis_len
        } else {
            1
        });
        if bpr > 256 {
            Ok((bpr, rows * (bpr + spec_ceil_div(bpr, 256))))
        } else {
            Ok((bpr, rows * bpr))
        }
    }
}

/// Blocks per row and scratch elements of the GPU prefix sum.
pub fn cumsum_scratch(axis_len: usize, out_size: usize) -> (r: Result<(usize, usize), OpError>)
    ensures
        match cumsum_scratch_outcome(axis_len as int, out_size as int) {
            Ok((b, s)) => r == Ok::<(usize, usize), OpError>((b as usize, s as usize)),
            Err(e) => r == Err::<(usize, usize), OpError>(e),
        },
{
    let bpr = ceil_div(axis_len, 256);
    if bpr > 65536 {
        return Err(OpError::ShapeMismatch);
    }
    let denom: usize = if axis_len > 1 {
        axis_len
    } else {
        1
    };
    let rows = out_size / denom;
    proof {
        assert(rows * denom <= out_size) by (nonlinear_arith)
            requires
                rows == out_size / denom,
                denom >= 1,
        ;
    }
    if bpr > 256 {
        let tpr = ceil_div(bpr, 256);
        proof {
            assert(bpr + tpr <= denom) by (nonlinear_arith)
                requires
                    bpr == (axis_len + 255) / 256,
                    tpr == (bpr + 255) / 256,
                    bpr > 256,
                    denom == axis_len,
            {
                assert(256 * bpr <= axis_len + 255);
                assert(256 * tpr <= bpr + 255);
            }
            assert(rows * (bpr + tpr) <= out_size) by (nonlinear_arith)
                requires
                    rows * denom <= out_size,
                    bpr + tpr <= denom,
                    rows >= 0,
            ;
        }
        Ok((bpr, rows * (bpr + tpr)))
    } else {
        proof {
            assert(bpr <= denom);
            assert(rows * bpr <= out_size) by (nonlinear_arith)
                requires
                    rows * denom <= out_size,
                    bpr <= denom,
                    rows >= 0,
            ;
        }
        Ok((bpr, rows * bpr))
    }
}


/// The dtype a prefix sum accumulates in: float32/float64 keep theirs, anything else
/// accumulates in int64.
pub open spec fn cumsum_compute_dtype(d: Dtype) -> Dtype {
    if is_real_float(d) {
        d
    } else {
        Dtype::Int64
    }
}

/// Outcome of the argument checks of `cumsum` over a normalized axis (`None`: over the
/// flattened array, giving a 1-D result).
pub open spec fn cumsum_outcome(a: &ArrayDesc, axis: Option<usize>, out: Option<&ArrayDesc>) -> Result<
    (Seq<usize>, Dtype),
    OpError,
> {
    let total = seq_prod(a.shape());
    let shape = match axis {
        None => seq![total as usize],
        Some(_) => a.shape(),
    };
    let compute = cumsum_compute_dtype(a.dtype);
    let axis_len = match axis {
        None => total,
        Some(ax) => a.shape()[ax as int] as int,
    };
    match out_check(out, shape, compute, a.device) {
        Some(e) => Err(e),
        None => if a.dtype != compute && !cast_supported(a.dtype, compute) {
            Err(OpError::DtypeUnsupported)
        } else if aliases(out, a, compute) {
            Err(OpError::AliasDetected)
        } else if a.device is Musa && total > 0 && cumsum_scratch_outcome(axis_len, total) is Err {
            Err(OpError::ShapeMismatch)
        } else {
            Ok((shape, compute))
        },
    }
}

/// How a prefix sum is run.
pub struct CumsumPlan {
    pub out_shape: Vec<usize>,
    pub dtype: Dtype,
    pub kernel_shape: Vec<usize>,
    pub kernel_axis: usize,
    pub axis_len: usize,
    pub out_size: usize,
    /// A flattened prefix sum of a view with non-row-major strides first copies it.
    pub materialize: bool,
}

/// The plan a prefix sum runs: the checked output shape and dtype, and the kernel
/// walking `kernel_shape` along `kernel_axis` (`axis_len` elements per row). Over the
/// flattened array (`axis` `None`) the kernel sees one row of all elements and a view
/// without row-major strides is copied first; along an axis it reads the view in place.
pub open spec fn cumsum_plan_matches(
    p: CumsumPlan,
    a: &ArrayDesc,
    axis: Option<usize>,
    shape: Seq<usize>,
    d: Dtype,
) -> bool {
    &&& p.out_shape@ == shape
    &&& p.dtype == d
    &&& p.out_size == seq_prod(a.shape())
    &&& match axis {
        None => {
            &&& p.kernel_shape@ == seq![seq_prod(a.shape()) as usize]
            &&& p.kernel_axis == 0
            &&& p.axis_len == seq_prod(a.shape())
            &&& p.materialize == !(a.layout.istrides() == c_strides(a.shape()))
        },
        Some(ax) => {
            &&& p.kernel_shape@ == a.shape()
            &&& p.kernel_axis == ax
            &&& p.axis_len == a.shape()[ax as int]
            &&& !p.materialize
        },
    }
}

/// Argument checks and kernel parameters of `cumsum`.
///
/// The output has the input's shape (or the flattened length when `axis` is `None`);
/// integer inputs accumulate in int64. `out=` must match shape, dtype and device; a
/// needed conversion must exist (complex and bool inputs have none); `out=` must not
/// be the buffer the kernel reads; on the GPU rows longer than 256^3 are rejected.
pub fn cumsum_op(a: &ArrayDesc, axis: Option<usize>, out: Option<&ArrayDesc>) -> (r: Result<
    CumsumPlan,
    OpError,
>)
    requires
        a.layout.wf(),
        axis matches Some(ax) ==> ax < a.shape().len(),
        nonzero_prod(a.shape()) <= usize::MAX,
    ensures
        match cumsum_outcome(a, axis, out) {
            Ok((shape, d)) => r matches Ok(p) && cumsum_plan_matches(p, a, axis, shape, d),
            Err(e) => r == Err::<CumsumPlan, OpError>(e),
        },
{
    proof {
        lemma_prod_le_nonzero_prod(a.shape());
    }
    let shape = a.layout.copy_shape();
    let total = shape_size(shape.as_slice());
    let compute = if a.dtype.is_real_float() {
        a.dtype
    } else {
        Dtype::Int64
    };
    let (out_shape, kernel_shape, kernel_axis, axis_len, materialize) = match axis {
        None => (vec![total], vec![total], 0usize, total, !a.layout.has_contiguous_strides()),
        Some(ax) => {
            let len = shape[ax];
            (a.layout.copy_shape(), shape, ax, len, false)
        },
    };
    assert(out_shape@ == (match axis {
        None => seq![seq_prod(a.shape()) as usize],
        Some(_) => a.shape(),
    }));
    match check_out(out, out_shape.as_slice(), compute, a.device) {
        Ok(()) => {},
        Err(e) => {
            return Err(e);
        },
    }
    if a.dtype != compute {
        match validate_cast_pair(a.dtype, compute) {
            Ok(()) => {},
            Err(e) => {
                return Err(e);
            },
        }
    }
    if let Some(o) = out {
        if o.buffer == a.buffer && a.dtype == compute {
            return Err(OpError::AliasDetected);
        }
    }
    if a.device.is_gpu() && total > 0 {
        match cumsum_scratch(axis_len, total) {
            Ok(_) => {},
            Err(e) => {
                return Err(e);
            },
        }
    }
    Ok(
        CumsumPlan {
            out_shape,
            dtype: compute,
            kernel_shape,
            kernel_axis,
            axis_len,
            out_size: total,
            materialize,
        },
    )
}

// ── Result dtypes ──────────────────────────────────────────────

/// A reduction of a float32/float64 array computes in the array's own dtype, and a
/// value reduction (sum, prod, max, min, mean) returns that dtype: no precision is
/// lost or invented. Without `out=` such a reduction always passes its checks.
pub proof fn lemma_float_reduction_keeps_dtype(
    a: &ArrayDesc,
    axis: Option<usize>,
    keepdims: bool,
    kernel: ReduceKernel,
)
    requires
        a.dtype == Dtype::Float32 || a.dtype == Dtype::Float64,
    ensures
        spec_reduction_compute_dtype(a.dtype, kernel) == a.dtype,
        reduction_outcome(a, axis, keepdims, None, kernel) == Ok::<(Seq<usize>, Dtype), OpError>(
            (
                reduce_out_shape(a.shape(), axis, keepdims),
                if is_index_reduction(kernel) {
                    Dtype::Int64
                } else {
                    a.dtype
                },
            ),
        ),
{
}

/// An integer reduction accumulates in int64 (a mean in float64), whatever the
/// integer width, so narrow integers do not wrap.
pub proof fn lemma_integer_reduction_widens(d: Dtype, kernel: ReduceKernel)
    requires
        is_integer(d),
    ensures
        spec_reduction_compute_dtype(d, kernel) == (if kernel == ReduceKernel::Mean {
            Dtype::Float64
        } else {
            Dtype::Int64
        }),
{
}

/// Every integer dtype converts to float32, float64 and int64, and float32 and
/// float64 convert to each other and to int64: the conversions that dtype promotion,
/// integer reductions and `astype` rely on all exist.
pub proof fn lemma_integer_and_float_casts_exist(s: Dtype, t: Dtype)
    requires
        is_integer(s) || is_real_float(s),
        t == Dtype::Float32 || t == Dtype::Float64 || t == Dtype::Int64,
        s != t,
    ensures
        cast_supported(s, t),
{
}

/// `astype` of an integer or float32/float64 array to float32, float64 or int64 (a
/// different dtype) succeeds without `out=`, keeping the shape and giving the
/// requested dtype.
pub proof fn lemma_astype_numeric_succeeds(a: &ArrayDesc, t: Dtype)
    requires
        is_integer(a.dtype) || is_real_float(a.dtype),
        t == Dtype::Float32 || t == Dtype::Float64 || t == Dtype::Int64,
        a.dtype != t,
    ensures
        astype_outcome(a, t, None) == Ok::<(Seq<usize>, Dtype), OpError>((a.shape(), t)),
{
    lemma_integer_and_float_casts_exist(a.dtype, t);
}

/// A running sum keeps the dtype of a float32/float64 input and accumulates any
/// integer input in int64; on the host, without `out=`, it always passes its checks.
pub proof fn lemma_cumsum_dtype(a: &ArrayDesc, axis: Option<usize>)
    ensures
        is_real_float(a.dtype) ==> cumsum_compute_dtype(a.dtype) == a.dtype,
        is_integer(a.dtype) ==> cumsum_compute_dtype(a.dtype) == Dtype::Int64,
        cumsum_outcome(a, axis, None) matches Ok((s, d)) ==> d == (if is_real_float(a.dtype) {
            a.dtype
        } else {
            Dtype::Int64
        }),
        (is_real_float(a.dtype) && a.device is Cpu) ==> (cumsum_outcome(a, axis, None)
            == Ok::<(Seq<usize>, Dtype), OpError>(
            (
                match axis {
                    None => seq![seq_prod(a.shape()) as usize],
                    Some(_) => a.shape(),
                },
                a.dtype,
            ),
        )),
{
}

/// `abs` never returns a complex dtype: a complex input gives the real dtype of the
/// same precision (half the element size), a real one keeps its dtype. Without `out=`,
/// `abs` of a complex array passes its checks.
pub proof fn lemma_abs_is_real(a: &ArrayDesc)
    ensures
        !is_complex(unary_out_dtype(a.dtype, UnaryKernel::Abs)),
        is_complex(a.dtype) ==> is_real_float(unary_out_dtype(a.dtype, UnaryKernel::Abs)) && 2
            * spec_element_size(unary_out_dtype(a.dtype, UnaryKernel::Abs)) == spec_element_size(
            a.dtype,
        ),
        !is_complex(a.dtype) ==> unary_out_dtype(a.dtype, UnaryKernel::Abs) == a.dtype,
        is_complex(a.dtype) ==> unary_outcome(a, None, UnaryKernel::Abs) == Ok::<
            (Seq<usize>, Dtype),
            OpError,
        >((a.shape(), unary_out_dtype(a.dtype, UnaryKernel::Abs))),
        unary_outcome(a, None, UnaryKernel::Abs) matches Ok((s, d)) ==> !is_complex(d),
{
}

/// A sum, product or mean of a complex array computes and returns the array's own
/// complex dtype.
pub proof fn lemma_complex_reduction_keeps_dtype(d: Dtype, kernel: ReduceKernel)
    requires
        is_complex(d),
        !is_ordering_reduction(kernel),
    ensures
        spec_reduction_compute_dtype(d, kernel) == d,
        reduce_out_dtype(d, kernel) == d,
{
}

/// Real floats widen to the complex dtype of their precision and complex64 widens to
/// complex128; nothing converts from complex to a real dtype, and no dtype converts
/// to itself.
pub proof fn lemma_complex_casts(s: Dtype, t: Dtype)
    ensures
        cast_supported(Dtype::Float32, Dtype::Complex64),
        cast_supported(Dtype::Float64, Dtype::Complex128),
        cast_supported(Dtype::Complex64, Dtype::Complex128),
        is_complex(s) && !is_complex(t) ==> !cast_supported(s, t),
        !cast_supported(s, s),
{
}

} // verus!
