//! CSR sparse matrices: construction checks, the argument checks of the sparse
//! products (run on the GPU sparse library) and materialization as a dense array.

use std::sync::Arc;
use vstd::prelude::*;

use crate::array::ArrayDesc;
use crate::dtype::{is_gpu, is_real_float, spec_element_size, Device, Dtype};
use crate::error::OpError;
use crate::indexing::{block, elem_index, share_buffer, valid_coords, HostArray};
use crate::layout::{c_strides, lemma_suffix_end, suffix_prod, Layout};
use crate::linalg::{check_float_whitelist, require_musa};

verus! {

/// A CSR matrix: `nnz` stored values (`data`, little-endian float32/float64), their
/// column indices (`indices`, little-endian int32) and the row offsets (`indptr`,
/// `rows + 1` little-endian int32, zero-based).
pub struct CsrMatrix {
    pub shape: (usize, usize),
    pub dtype: Dtype,
    pub device: Device,
    pub data: Arc<Vec<u8>>,
    pub indices: Arc<Vec<u8>>,
    pub indptr: Arc<Vec<u8>>,
    pub nnz: usize,
}

/// Entry `k` of a buffer of little-endian int32 values.
pub open spec fn i32_at(bytes: Seq<u8>, k: int) -> i32 {
    vstd::bytes::spec_u32_from_le_bytes(bytes.subrange(4 * k, 4 * k + 4)) as i32
}

impl CsrMatrix {
    /// `(rows, cols)`.
    pub fn shape(&self) -> (r: (usize, usize))
        ensures
            r == self.shape,
    {
        self.shape
    }

    pub fn dtype(&self) -> (r: Dtype)
        ensures
            r == self.dtype,
    {
        self.dtype
    }

    pub fn device(&self) -> (r: &Device)
        ensures
            *r == self.device,
    {
        &self.device
    }

    /// Number of stored values.
    pub fn nnz(&self) -> (r: usize)
        ensures
            r == self.nnz,
    {
        self.nnz
    }

    /// The three buffers are long enough for `nnz` values and `rows + 1` offsets.
    pub open spec fn wf(&self) -> bool {
        &&& self.data@.len() >= self.nnz * spec_element_size(self.dtype)
        &&& self.indices@.len() >= 4 * self.nnz
        &&& self.indptr@.len() >= 4 * (self.shape.0 + 1)
    }

    /// Start (inclusive) of row `i`'s stored values, as the offsets are read.
    pub open spec fn row_start(&self, i: int) -> int {
        i32_at(self.indptr@, i) as usize as int
    }

    /// End (exclusive) of row `i`'s stored values.
    pub open spec fn row_end(&self, i: int) -> int {
        i32_at(self.indptr@, i + 1) as usize as int
    }

    /// Column of stored value `k`.
    pub open spec fn col_of(&self, k: int) -> int {
        i32_at(self.indices@, k) as usize as int
    }

    /// Every stored value that a row's offsets reach exists and has a column inside
    /// the matrix.
    pub open spec fn ranges_valid(&self) -> bool {
        forall|i: int, k: int|
            #![trigger self.row_start(i), self.col_of(k)]
            (0 <= i < self.shape.0 && self.row_start(i) <= k && k < self.row_end(i)) ==> (k
                < self.nnz && self.col_of(k) < self.shape.1)
    }
}

/// `a == b * c` over the integers (an overflow-free check in `usize`).
fn mul_equals(a: usize, b: usize, c: usize) -> (r: bool)
    ensures
        r == (a as int == b as int * c as int),
{
    proof {
        assert((b as int) * (c as int) <= u128::MAX) by (nonlinear_arith)
            requires
                0 <= b <= usize::MAX,
                0 <= c <= usize::MAX,
        ;
    }
    let p: u128 = (b as u128) * (c as u128);
    a as u128 == p
}

/// `csr_from_host(data, indices, indptr, rows, cols, nnz, dtype, device)`: a CSR
/// matrix from raw little-endian bytes. The dtype must be float32 or float64
/// (`DtypeUnsupported`), and the byte counts must be `nnz` values, `nnz` int32
/// column indices and `rows + 1` int32 offsets (`ShapeMismatch`), checked in that
/// order.
pub fn csr_from_host(
    data_bytes: &[u8],
    indices_bytes: &[u8],
    indptr_bytes: &[u8],
    rows: usize,
    cols: usize,
    nnz: usize,
    dtype: Dtype,
    device: Device,
) -> (r: Result<CsrMatrix, OpError>)
    ensures
        !is_real_float(dtype) ==> r == Err::<CsrMatrix, OpError>(OpError::DtypeUnsupported),
        is_real_float(dtype) ==> if data_bytes@.len() != nnz * spec_element_size(dtype)
            || indices_bytes@.len() != nnz * 4 || indptr_bytes@.len() != (rows + 1) * 4 {
            r == Err::<CsrMatrix, OpError>(OpError::ShapeMismatch)
        } else {
            r matches Ok(m) && {
                &&& m.wf()
                &&& m.shape == (rows, cols) && m.dtype == dtype && m.device == device && m.nnz == nnz
                &&& m.data@ == data_bytes@ && m.indices@ == indices_bytes@ && m.indptr@
                    == indptr_bytes@
            }
        },
{
    match check_float_whitelist(dtype) {
        Ok(()) => {},
        Err(e) => {
            return Err(e);
        },
    }
    let elem = dtype.element_size();
    if !mul_equals(data_bytes.len(), nnz, elem) {
        return Err(OpError::ShapeMismatch);
    }
    if !mul_equals(indices_bytes.len(), nnz, 4) {
        return Err(OpError::ShapeMismatch);
    }
    let rows1: u128 = rows as u128 + 1;
    if indptr_bytes.len() as u128 != rows1 * 4 {
        return Err(OpError::ShapeMismatch);
    }
    Ok(
        CsrMatrix {
            shape: (rows, cols),
            dtype,
            device,
            data: Arc::new(copy_bytes(data_bytes)),
            indices: Arc::new(copy_bytes(indices_bytes)),
            indptr: Arc::new(copy_bytes(indptr_bytes)),
            nnz,
        },
    )
}

/// A copy of `b`.
fn copy_bytes(b: &[u8]) -> (r: Vec<u8>)
    ensures
        r@ == b@,
{
    let mut r: Vec<u8> = Vec::new();
    let mut i: usize = 0;
    while i < b.len()
        invariant
            i <= b.len(),
            r@ == b@.take(i as int),
        decreases b.len() - i,
    {
        r.push(b[i]);
        assert(r@ =~= b@.take(i as int + 1));
        i = i + 1;
    }
    assert(r@ =~= b@);
    r
}

/// Outcome of `csr_from_arrays(data, indices, indptr, rows, cols)`.
pub open spec fn csr_arrays_check(
    data: &HostArray,
    indices: &HostArray,
    indptr: &HostArray,
    rows: usize,
) -> Result<(), OpError> {
    if !is_gpu(data.device) {
        Err(OpError::DeviceMismatch)
    } else if !is_real_float(data.dtype) {
        Err(OpError::DtypeUnsupported)
    } else if indices.dtype != Dtype::Int32 || indptr.dtype != Dtype::Int32 {
        Err(OpError::DtypeUnsupported)
    } else if indices.layout.shape@[0] != data.layout.shape@[0] {
        Err(OpError::ShapeMismatch)
    } else if indptr.layout.shape@[0] != rows + 1 {
        Err(OpError::ShapeMismatch)
    } else if data.device != indices.device || data.device != indptr.device {
        Err(OpError::DeviceMismatch)
    } else {
        Ok(())
    }
}

/// A well-formed 1-D row-major array holds its `n` elements in the first `n` element
/// slots of its buffer.
proof fn lemma_vector_len(x: &HostArray)
    requires
        x.wf(),
        x.layout.shape@.len() == 1,
        x.layout.spec_is_contiguous(),
    ensures
        x.data@.len() >= x.layout.shape@[0] * x.esize(),
{
    let n = x.layout.shape@[0] as int;
    if n > 0 {
        let c = seq![n - 1];
        assert(valid_coords(c, x.layout.shape@));
        lemma_suffix_end(x.layout.shape@);
        assert(c_strides(x.layout.shape@)[0] == suffix_prod(x.layout.shape@, 1));
        assert(x.layout.istrides()[0] == 1);
        reveal_with_fuel(crate::indexing::coords_sum, 2);
        assert(elem_index(x.layout, c) == n - 1);
        assert((elem_index(x.layout, c) + 1) * x.esize() <= x.data@.len());
        assert(n * x.esize() <= x.data@.len());
    } else {
        assert(n == 0);
        assert(0 * x.esize() == 0);
    }
}

/// `csr_from_arrays(data, indices, indptr, rows, cols)`: a CSR matrix sharing the
/// buffers of three 1-D row-major arrays on one MUSA device: float32/float64 values,
/// int32 column indices of the same length, and `rows + 1` int32 offsets.
pub fn csr_from_arrays(
    data: &HostArray,
    indices: &HostArray,
    indptr: &HostArray,
    rows: usize,
    cols: usize,
) -> (r: Result<CsrMatrix, OpError>)
    requires
        data.wf() && indices.wf() && indptr.wf(),
        data.layout.shape@.len() == 1 && indices.layout.shape@.len() == 1
            && indptr.layout.shape@.len() == 1,
        data.layout.spec_is_contiguous() && indices.layout.spec_is_contiguous()
            && indptr.layout.spec_is_contiguous(),
        rows < usize::MAX,
    ensures
        match csr_arrays_check(data, indices, indptr, rows) {
            Err(e) => r == Err::<CsrMatrix, OpError>(e),
            Ok(()) => r matches Ok(m) && {
                &&& m.wf()
                &&& m.shape == (rows, cols) && m.dtype == data.dtype && m.device == data.device
                &&& m.nnz == data.layout.shape@[0]
                &&& m.data@ == data.data@ && m.indices@ == indices.data@ && m.indptr@ == indptr.data@
            },
        },
{
    match require_musa(data.device) {
        Ok(()) => {},
        Err(e) => {
            return Err(e);
        },
    }
    match check_float_whitelist(data.dtype) {
        Ok(()) => {},
        Err(e) => {
            return Err(e);
        },
    }
    if indices.dtype != Dtype::Int32 || indptr.dtype != Dtype::Int32 {
        return Err(OpError::DtypeUnsupported);
    }
    let nnz = data.layout.shape[0];
    if indices.layout.shape[0] != nnz {
        return Err(OpError::ShapeMismatch);
    }
    if indptr.layout.shape[0] != rows + 1 {
        return Err(OpError::ShapeMismatch);
    }
    if data.device != indices.device || data.device != indptr.device {
        return Err(OpError::DeviceMismatch);
    }
    proof {
        lemma_vector_len(data);
        lemma_vector_len(indices);
        lemma_vector_len(indptr);
        assert(indices.esize() == 4 && indptr.esize() == 4);
        assert(indices.layout.shape@[0] * 4 == 4 * nnz);
        assert(indptr.layout.shape@[0] * 4 == 4 * (rows + 1));
        assert(nnz * spec_element_size(data.dtype) == data.layout.shape@[0] * data.esize());
    }
    Ok(
        CsrMatrix {
            shape: (rows, cols),
            dtype: data.dtype,
            device: data.device,
            data: share_buffer(&data.data),
            indices: share_buffer(&indices.data),
            indptr: share_buffer(&indptr.data),
            nnz,
        },
    )
}

// ── Products ───────────────────────────────────────────────────

/// Outcome of `spmv(mat, vec)` (`Ok`: the result shape `(rows,)`).
pub open spec fn spmv_outcome(mat: &CsrMatrix, v: &ArrayDesc) -> Result<Seq<usize>, OpError> {
    if !is_gpu(mat.device) || v.device != mat.device {
        Err(OpError::DeviceMismatch)
    } else if v.shape().len() != 1 || v.shape()[0] != mat.shape.1 {
        Err(OpError::ShapeMismatch)
    } else if v.dtype != mat.dtype {
        Err(OpError::DtypeUnsupported)
    } else {
        Ok(seq![mat.shape.0])
    }
}

/// Outcome of `spmm(mat, dense)` (`Ok`: the result shape `(rows, dense_cols)`).
pub open spec fn spmm_outcome(mat: &CsrMatrix, d: &ArrayDesc) -> Result<Seq<usize>, OpError> {
    if !is_gpu(mat.device) || d.device != mat.device {
        Err(OpError::DeviceMismatch)
    } else if d.shape().len() != 2 || d.shape()[0] != mat.shape.1 {
        Err(OpError::ShapeMismatch)
    } else if d.dtype != mat.dtype {
        Err(OpError::DtypeUnsupported)
    } else {
        Ok(seq![mat.shape.0, d.shape()[1]])
    }
}

/// How a sparse product is run: the result shape and dtype, and whether it is just
/// zero-filled (a matrix with no stored values).
pub struct SparsePlan {
    pub out_shape: Vec<usize>,
    pub dtype: Dtype,
    pub zero_fill: bool,
}

/// `spmv(mat, vec)`: `mat @ vec` for a 1-D `vec` of length `cols` on the matrix's
/// MUSA device, with the matrix's dtype; the result has shape `(rows,)`.
pub fn spmv(mat: &CsrMatrix, v: &ArrayDesc) -> (r: Result<SparsePlan, OpError>)
    ensures
        match spmv_outcome(mat, v) {
            Ok(shape) => r matches Ok(p) && p.out_shape@ == shape && p.dtype == mat.dtype
                && p.zero_fill == (mat.nnz == 0),
            Err(e) => r == Err::<SparsePlan, OpError>(e),
        },
{
    match require_musa(mat.device) {
        Ok(()) => {},
        Err(e) => {
            return Err(e);
        },
    }
    if v.device != mat.device {
        return Err(OpError::DeviceMismatch);
    }
    if v.layout.shape.len() != 1 || v.layout.shape[0] != mat.shape.1 {
        return Err(OpError::ShapeMismatch);
    }
    if v.dtype != mat.dtype {
        return Err(OpError::DtypeUnsupported);
    }
    Ok(SparsePlan { out_shape: vec![mat.shape.0], dtype: mat.dtype, zero_fill: mat.nnz == 0 })
}

/// `spmm(mat, dense)`: `mat @ dense` for a 2-D `dense` with `cols` rows on the
/// matrix's MUSA device, with the matrix's dtype; the result has shape
/// `(rows, dense.shape[1])`.
pub fn spmm(mat: &CsrMatrix, dense: &ArrayDesc) -> (r: Result<SparsePlan, OpError>)
    ensures
        match spmm_outcome(mat, dense) {
            Ok(shape) => r matches Ok(p) && p.out_shape@ == shape && p.dtype == mat.dtype
                && p.zero_fill == (mat.nnz == 0),
            Err(e) => r == Err::<SparsePlan, OpError>(e),
        },
{
    match require_musa(mat.device) {
        Ok(()) => {},
        Err(e) => {
            return Err(e);
        },
    }
    if dense.device != mat.device {
        return Err(OpError::DeviceMismatch);
    }
    if dense.layout.shape.len() != 2 || dense.layout.shape[0] != mat.shape.1 {
        return Err(OpError::ShapeMismatch);
    }
    if dense.dtype != mat.dtype {
        return Err(OpError::DtypeUnsupported);
    }
    Ok(
        SparsePlan {
            out_shape: vec![mat.shape.0, dense.layout.shape[1]],
            dtype: mat.dtype,
            zero_fill: mat.nnz == 0,
        },
    )
}


// ── toarray ────────────────────────────────────────────────────

/// The last of row `i`'s stored values before `t` whose column is `j`, if any.
pub open spec fn last_stored(m: &CsrMatrix, i: int, j: int, t: int) -> Option<int>
    decreases t - m.row_start(i),
{
    if t <= m.row_start(i) {
        None
    } else if m.col_of(t - 1) == j {
        Some(t - 1)
    } else {
        last_stored(m, i, j, t - 1)
    }
}

/// No column occurs twice among row `i`'s stored values.
pub open spec fn row_columns_distinct(m: &CsrMatrix, i: int) -> bool {
    forall|k1: int, k2: int|
        m.row_start(i) <= k1 < k2 < m.row_end(i) ==> m.col_of(k1) != m.col_of(k2)
}

/// In a row with no repeated column, the value `toarray` writes to `(i, j)` is the
/// one stored for column `j`, if any: the search for the last stored value of the
/// column finds exactly the position stored for it, and nothing when none is.
pub proof fn lemma_last_stored_unique(m: &CsrMatrix, i: int, j: int, t: int)
    requires
        row_columns_distinct(m, i),
        t <= m.row_end(i),
    ensures
        (exists|p: int| m.row_start(i) <= p < t && m.col_of(p) == j) ==> last_stored(m, i, j, t)
            == Some(choose|p: int| m.row_start(i) <= p < t && m.col_of(p) == j),
        !(exists|p: int| m.row_start(i) <= p < t && m.col_of(p) == j) ==> last_stored(m, i, j, t)
            is None,
    decreases t - m.row_start(i),
{
    if t > m.row_start(i) {
        lemma_last_stored_unique(m, i, j, t - 1);
        if exists|p: int| m.row_start(i) <= p < t && m.col_of(p) == j {
            let q = choose|p: int| m.row_start(i) <= p < t && m.col_of(p) == j;
            if m.col_of(t - 1) == j {
                if q != t - 1 {
                    assert(m.col_of(q) != m.col_of(t - 1));
                }
            } else {
                assert(m.row_start(i) <= q < t - 1);
            }
        }
    }
}

/// The bytes of dense entry `(i, j)` once row `i`'s stored values before `t` have
/// been written: the last one in column `j`, or zero.
pub open spec fn dense_entry(m: &CsrMatrix, i: int, j: int, t: int) -> Seq<u8> {
    let es = spec_element_size(m.dtype) as int;
    match last_stored(m, i, j, t) {
        Some(k) => block(m.data@, k, es),
        None => Seq::new(es as nat, |b: int| 0u8),
    }
}

/// Dense entry `p` (row-major) while row `i` is being written up to stored value `t`.
pub open spec fn dense_progress(m: &CsrMatrix, p: int, i: int, t: int) -> Seq<u8> {
    let cols = m.shape.1 as int;
    let r = p / cols;
    let c = p % cols;
    let upto = if r < i {
        m.row_end(r)
    } else if r == i {
        t
    } else {
        m.row_start(r)
    };
    dense_entry(m, r, c, upto)
}

/// Entry `k` of a little-endian int32 buffer, converted as an index.
fn read_index(bytes: &Vec<u8>, k: usize) -> (r: usize)
    requires
        4 * k + 4 <= bytes@.len(),
    ensures
        r as int == i32_at(bytes@, k as int) as usize as int,
{
    let len = bytes.len();
    let start = 4 * k;
    let mut b4: Vec<u8> = Vec::new();
    let mut b: usize = 0;
    while b < 4
        invariant
            start == 4 * k,
            start + 4 <= bytes@.len(),
            b <= 4,
            b4@ == bytes@.subrange(start as int, start + b),
        decreases 4 - b,
    {
        b4.push(bytes[start + b]);
        assert(b4@ =~= bytes@.subrange(start as int, start + b + 1));
        b = b + 1;
    }
    let v = vstd::bytes::u32_from_le_bytes(b4.as_slice());
    (v as i32) as usize
}

/// `toarray(mat)`: the dense `(rows, cols)` row-major array of a CSR matrix on a MUSA
/// device. Entry `(i, j)` is the last of row `i`'s stored values in column `j` (later
/// stored values overwrite earlier ones), or zero where there is none.
pub fn toarray(mat: &CsrMatrix) -> (r: Result<HostArray, OpError>)
    requires
        mat.wf(),
        mat.ranges_valid(),
        mat.shape.0 * mat.shape.1 * spec_element_size(mat.dtype) <= isize::MAX,
        mat.shape.1 <= isize::MAX,
    ensures
        !is_gpu(mat.device) ==> r == Err::<HostArray, OpError>(OpError::DeviceMismatch),
        is_gpu(mat.device) ==> (r matches Ok(d) && {
            let rows = mat.shape.0 as int;
            let cols = mat.shape.1 as int;
            &&& d.wf()
            &&& d.layout.shape@ == seq![mat.shape.0, mat.shape.1]
            &&& d.layout.spec_is_contiguous()
            &&& d.dtype == mat.dtype && d.device == mat.device
            &&& forall|i: int, j: int|
                0 <= i < rows && 0 <= j < cols ==> #[trigger] block(
                    d.data@,
                    i * cols + j,
                    spec_element_size(mat.dtype) as int,
                ) == dense_entry(mat, i, j, mat.row_end(i))
        }),
{
    match require_musa(mat.device) {
        Ok(()) => {},
        Err(e) => {
            return Err(e);
        },
    }
    let rows = mat.shape.0;
    let cols = mat.shape.1;
    let es = mat.dtype.element_size();
    proof {
        assert(rows * cols <= rows * cols * es) by (nonlinear_arith)
            requires
                es >= 1,
        ;
    }
    let total = rows * cols;
    let nbytes = total * es;
    let mut out: Vec<u8> = Vec::new();
    let mut z: usize = 0;
    while z < nbytes
        invariant
            z <= nbytes,
            out@ == Seq::new(z as nat, |b: int| 0u8),
        decreases nbytes - z,
    {
        out.push(0);
        assert(out@ =~= Seq::new(z as nat + 1, |b: int| 0u8));
        z = z + 1;
    }
    proof {
        assert forall|p: int| 0 <= p < total implies #[trigger] block(out@, p, es as int)
            == dense_progress(mat, p, 0, mat.row_start(0)) by {
            lemma_block_range(p, total as int, es as int);
            let r = p / (cols as int);
            assert(r >= 0) by (nonlinear_arith)
                requires
                    p >= 0,
                    cols >= 1,
                    r == p / (cols as int),
            ;
            assert(block(out@, p, es as int) =~= Seq::new(es as nat, |b: int| 0u8));
        }
    }
    if mat.nnz != 0 {
        let mut i: usize = 0;
        while i < rows
            invariant
                mat.wf(),
                mat.ranges_valid(),
                rows == mat.shape.0,
                cols == mat.shape.1,
                es == spec_element_size(mat.dtype),
                total == rows * cols,
                nbytes == total * es,
                nbytes <= isize::MAX,
                i <= rows,
                out@.len() == nbytes,
                forall|p: int|
                    0 <= p < total ==> #[trigger] block(out@, p, es as int) == dense_progress(
                        mat,
                        p,
                        i as int,
                        mat.row_start(i as int),
                    ),
            decreases rows - i,
        {
            let s = read_index(&mat.indptr, i);
            let e = read_index(&mat.indptr, i + 1);
            let mut k: usize = s;
            while k < e
                invariant
                    mat.wf(),
                    mat.ranges_valid(),
                    rows == mat.shape.0,
                    cols == mat.shape.1,
                    es == spec_element_size(mat.dtype),
                    total == rows * cols,
                    nbytes == total * es,
                    nbytes <= isize::MAX,
                    i < rows,
                    s == mat.row_start(i as int),
                    e == mat.row_end(i as int),
                    s <= k,
                    k <= e || k == s,
                    out@.len() == nbytes,
                    forall|p: int|
                        0 <= p < total ==> #[trigger] block(out@, p, es as int) == dense_progress(
                            mat,
                            p,
                            i as int,
                            k as int,
                        ),
                decreases e - k,
            {
                proof {
                    lemma_stored_in_range(mat, i as int, k as int);
                }
                let col = read_index(&mat.indices, k);
                write_entry(mat, &mut out, i, k, col);
                k = k + 1;
            }
            proof {
                assert forall|p: int| 0 <= p < total implies #[trigger] block(out@, p, es as int)
                    == dense_progress(mat, p, i as int + 1, mat.row_start(i as int + 1)) by {
                    let r = p / (cols as int);
                    if r == i {
                        let c = p % (cols as int);
                        if k > e {
                            assert(last_stored(mat, r, c, mat.row_end(r)) is None);
                            assert(last_stored(mat, r, c, k as int) is None);
                        }
                    }
                }
            }
            i = i + 1;
        }
    }
    let ghost sh = seq![rows, cols];
    proof {
        assert forall|kk: int| 0 <= kk <= 2 implies #[trigger] suffix_prod(sh, kk)
            <= isize::MAX by {
            reveal_with_fuel(crate::layout::seq_prod, 3);
            if kk == 0 {
                assert(sh.subrange(0, 2) =~= sh);
                assert(sh.drop_first() =~= seq![cols]);
                assert(seq![cols].drop_first() =~= Seq::<usize>::empty());
            } else if kk == 1 {
                assert(sh.subrange(1, 2) =~= seq![cols]);
                assert(seq![cols].drop_first() =~= Seq::<usize>::empty());
            } else {
                assert(sh.subrange(2, 2) =~= Seq::<usize>::empty());
            }
        }
    }
    let shape_v = vec![rows, cols];
    assert(shape_v@ == sh);
    let layout = Layout::from_shape(shape_v);
    let d = HostArray { layout, dtype: mat.dtype, device: mat.device, data: Arc::new(out) };
    proof {
        reveal_with_fuel(crate::layout::seq_prod, 3);
        assert(seq![rows, cols].drop_first() =~= seq![cols]);
        assert(seq![cols].drop_first() =~= Seq::<usize>::empty());
        crate::indexing::lemma_row_major_wf(&d);
        assert forall|i: int, j: int| 0 <= i < rows && 0 <= j < cols implies #[trigger] block(
            d.data@,
            i * cols + j,
            es as int,
        ) == dense_entry(mat, i, j, mat.row_end(i)) by {
            let p = i * cols + j;
            assert(p / (cols as int) == i && p % (cols as int) == j && 0 <= p < total)
                by (nonlinear_arith)
                requires
                    p == i * cols + j,
                    0 <= i < rows,
                    0 <= j < cols,
                    total == rows * cols,
            ;
        }
    }
    Ok(d)
}

/// Block `p` of `n` blocks of `size` bytes lies inside `n * size` bytes.
proof fn lemma_block_range(p: int, n: int, size: int)
    requires
        0 <= p < n,
        size >= 0,
    ensures
        0 <= p * size,
        (p + 1) * size <= n * size,
        (p + 1) * size == p * size + size,
{
    assert(0 <= p * size && (p + 1) * size <= n * size && (p + 1) * size == p * size + size)
        by (nonlinear_arith)
        requires
            0 <= p < n,
            size >= 0,
    ;
}

/// Writes stored value `k` (column `col`) of row `i` into the dense buffer.
fn write_entry(mat: &CsrMatrix, out: &mut Vec<u8>, i: usize, k: usize, col: usize)
    requires
        mat.wf(),
        mat.ranges_valid(),
        i < mat.shape.0,
        mat.row_start(i as int) <= k < mat.row_end(i as int),
        col as int == mat.col_of(k as int),
        old(out)@.len() == mat.shape.0 * mat.shape.1 * spec_element_size(mat.dtype),
        old(out)@.len() <= isize::MAX,
        forall|p: int|
            0 <= p < mat.shape.0 * mat.shape.1 ==> #[trigger] block(
                old(out)@,
                p,
                spec_element_size(mat.dtype) as int,
            ) == dense_progress(mat, p, i as int, k as int),
    ensures
        final(out)@.len() == old(out)@.len(),
        forall|p: int|
            0 <= p < mat.shape.0 * mat.shape.1 ==> #[trigger] block(
                final(out)@,
                p,
                spec_element_size(mat.dtype) as int,
            ) == dense_progress(mat, p, i as int, k as int + 1),
{
    let cols = mat.shape.1;
    let rows = mat.shape.0;
    let es = mat.dtype.element_size();
    let ghost total = rows * cols;
    proof {
        assert(k < mat.nnz && mat.col_of(k as int) < cols);
        assert((i * cols + col) < total) by (nonlinear_arith)
            requires
                i < rows,
                col < cols,
                total == rows * cols,
        ;
        lemma_block_range(i * cols + col, total, es as int);
        lemma_block_range(k as int, mat.nnz as int, es as int);
        assert(es * total == total * es) by (nonlinear_arith);
    }
    let dlen = mat.data.len();
    let dst = (i * cols + col) * es;
    let src = k * es;
    let ghost before = out@;
    let ghost elem = block(mat.data@, k as int, es as int);
    let mut b: usize = 0;
    while b < es
        invariant
            mat.wf(),
            es == spec_element_size(mat.dtype),
            src == k * es,
            src + es <= mat.data@.len(),
            dst + es <= total * es,
            total * es <= isize::MAX,
            elem == mat.data@.subrange(src as int, src + es),
            b <= es,
            out@.len() == total * es,
            before.len() == total * es,
            forall|t: int| 0 <= t < b ==> #[trigger] out@[dst + t] == elem[t],
            forall|x: int|
                0 <= x < total * es && (x < dst || x >= dst + b) ==> #[trigger] out@[x] == before[x],
        decreases es - b,
    {
        out.set(dst + b, mat.data[src + b]);
        b = b + 1;
    }
    proof {
        let q = (i * cols + col) as int;
        crate::indexing::lemma_write_block(before, out@, q, es as int, total, elem);
        assert forall|p: int| 0 <= p < total implies #[trigger] block(out@, p, es as int)
            == dense_progress(mat, p, i as int, k as int + 1) by {
            let r = p / (cols as int);
            let c = p % (cols as int);
            assert(q / (cols as int) == i && q % (cols as int) == col) by (nonlinear_arith)
                requires
                    q == i * cols + col,
                    col < cols,
                    i >= 0,
            ;
            if p != q {
                assert(block(out@, p, es as int) == block(before, p, es as int));
                if r == i {
                    assert(c != col) by {
                        if c == col {
                            assert(p == r * cols + c) by (nonlinear_arith)
                                requires
                                    r == p / (cols as int),
                                    c == p % (cols as int),
                                    cols > 0,
                            ;
                        }
                    }
                }
            }
        }
    }
}


/// A stored value reached by a row's offsets exists and lies in a column of the matrix.
proof fn lemma_stored_in_range(m: &CsrMatrix, i: int, k: int)
    requires
        m.ranges_valid(),
        0 <= i < m.shape.0,
        m.row_start(i) <= k < m.row_end(i),
    ensures
        k < m.nnz,
        m.col_of(k) < m.shape.1,
{
    let rs = m.row_start(i);
    let cs = m.col_of(k);
    assert(0 <= i < m.shape.0);
    assert(rs <= k);
    assert(k < m.row_end(i));
    assert(k < m.nnz);
}

} // verus!
