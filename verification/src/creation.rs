//! Creation of new row-major arrays: zeros, ones, identity-like matrices, and the
//! `_like` variants, filled in host memory.

use std::sync::Arc;
use vstd::prelude::*;

use crate::dtype::{spec_element_size, Device, Dtype};
use crate::error::OpError;
use crate::indexing::{block, lemma_row_major_wf, HostArray};
use crate::layout::{
    lemma_nonzero_prod_pos, lemma_prod_le_nonzero_prod, lemma_seq_prod_nonneg, lemma_strides_fit,
    nonzero_prod, seq_prod, Layout,
};

verus! {

/// The dtype of a creation: the requested one, or float32.
pub open spec fn creation_dtype(dtype: Option<Dtype>) -> Dtype {
    match dtype {
        Some(d) => d,
        None => Dtype::Float32,
    }
}

/// The little-endian bytes of the value 1 in dtype `d`, for the dtypes a host fill
/// supports (not float16, bfloat16 or complex).
pub open spec fn one_bytes(d: Dtype) -> Option<Seq<u8>> {
    match d {
        Dtype::Float32 => Some(seq![0u8, 0u8, 0x80u8, 0x3fu8]),
        Dtype::Float64 => Some(seq![0u8, 0u8, 0u8, 0u8, 0u8, 0u8, 0xf0u8, 0x3fu8]),
        Dtype::Int64 | Dtype::Uint64 => Some(seq![1u8, 0u8, 0u8, 0u8, 0u8, 0u8, 0u8, 0u8]),
        Dtype::Int32 | Dtype::Uint32 => Some(seq![1u8, 0u8, 0u8, 0u8]),
        Dtype::Int16 | Dtype::Uint16 => Some(seq![1u8, 0u8]),
        Dtype::Int8 | Dtype::Uint8 | Dtype::Bool => Some(seq![1u8]),
        _ => None,
    }
}

/// `n` zero bytes.
pub open spec fn zeros_of(n: nat) -> Seq<u8> {
    Seq::new(n, |i: int| 0u8)
}

/// The bytes of 1 in dtype `d`, if a host fill supports `d`.
fn unit_bytes(d: Dtype) -> (r: Option<Vec<u8>>)
    ensures
        match one_bytes(d) {
            Some(b) => r matches Some(v) && v@ == b && b.len() == spec_element_size(d),
            None => r is None,
        },
{
    let r = match d {
        Dtype::Float32 => Some(vec![0u8, 0u8, 0x80u8, 0x3fu8]),
        Dtype::Float64 => Some(vec![0u8, 0u8, 0u8, 0u8, 0u8, 0u8, 0xf0u8, 0x3fu8]),
        Dtype::Int64 | Dtype::Uint64 => Some(vec![1u8, 0u8, 0u8, 0u8, 0u8, 0u8, 0u8, 0u8]),
        Dtype::Int32 | Dtype::Uint32 => Some(vec![1u8, 0u8, 0u8, 0u8]),
        Dtype::Int16 | Dtype::Uint16 => Some(vec![1u8, 0u8]),
        Dtype::Int8 | Dtype::Uint8 | Dtype::Bool => Some(vec![1u8]),
        _ => None,
    };
    proof {
        if let Some(v) = &r {
            assert(v@ =~= one_bytes(d).unwrap());
        }
    }
    r
}

/// A row-major array of `shape` with the given bytes.
fn row_major_array(shape: Vec<usize>, dtype: Dtype, device: Device, data: Vec<u8>) -> (r: HostArray)
    requires
        nonzero_prod(shape@) * spec_element_size(dtype) <= isize::MAX,
        data@.len() == seq_prod(shape@) * spec_element_size(dtype),
    ensures
        r.wf(),
        r.layout.shape@ == shape@,
        r.layout.spec_is_contiguous(),
        r.dtype == dtype && r.device == device,
        r.data@ == data@,
{
    proof {
        lemma_nonzero_prod_pos(shape@);
        lemma_prod_le_nonzero_prod(shape@);
        lemma_seq_prod_nonneg(shape@);
        let es = spec_element_size(dtype) as int;
        let a = seq_prod(shape@);
        let b = nonzero_prod(shape@);
        assert(b <= b * es && a * es <= b * es) by (nonlinear_arith)
            requires
                es >= 1,
                b >= 1,
                0 <= a <= b,
        ;
        lemma_strides_fit(shape@);
    }
    let layout = Layout::from_shape(shape);
    let r = HostArray { layout, dtype, device, data: Arc::new(data) };
    proof {
        lemma_row_major_wf(&r);
    }
    r
}

/// `count` copies of `elem`.
fn repeat_elem(elem: &Vec<u8>, count: usize) -> (r: Vec<u8>)
    requires
        count * elem@.len() <= isize::MAX,
    ensures
        r@.len() == count * elem@.len(),
        forall|i: int| 0 <= i < count ==> #[trigger] block(r@, i, elem@.len() as int) == elem@,
{
    let es = elem.len();
    let mut r: Vec<u8> = Vec::new();
    let mut i: usize = 0;
    while i < count
        invariant
            es == elem@.len(),
            count * es <= isize::MAX,
            i <= count,
            r@.len() == i * es,
            forall|j: int| 0 <= j < i ==> #[trigger] block(r@, j, es as int) == elem@,
        decreases count - i,
    {
        let ghost before = r@;
        proof {
            assert((i + 1) * es <= count * es && (i + 1) * es == i * es + es) by (nonlinear_arith)
                requires
                    i + 1 <= count,
            ;
        }
        let mut b: usize = 0;
        while b < es
            invariant
                es == elem@.len(),
                (i + 1) * es <= isize::MAX,
                b <= es,
                r@.len() == i * es + b,
                r@.subrange(0, i * es) == before,
                before.len() == i * es,
                forall|t: int| 0 <= t < b ==> #[trigger] r@[i * es + t] == elem@[t],
            decreases es - b,
        {
            r.push(elem[b]);
            assert(r@.subrange(0, i * es) =~= before);
            b = b + 1;
        }
        proof {
            crate::linalg::lemma_append_elem(before, r@, i as int, es as int, elem@);
        }
        i = i + 1;
    }
    r
}

/// The outcome of filling `n` elements of dtype `d` with a constant: a host fill
/// of a non-empty array needs a dtype with a byte pattern for it.
pub open spec fn fill_ok(n: int, d: Dtype) -> bool {
    n == 0 || one_bytes(d) is Some
}

/// Fills a new row-major array of `shape` with 0 (`one == false`) or 1.
fn constant_array(shape: Vec<usize>, dtype: Dtype, device: Device, one: bool) -> (r: Result<
    HostArray,
    OpError,
>)
    requires
        nonzero_prod(shape@) * spec_element_size(dtype) <= isize::MAX,
    ensures
        !fill_ok(seq_prod(shape@), dtype) ==> r == Err::<HostArray, OpError>(OpError::DtypeUnsupported),
        fill_ok(seq_prod(shape@), dtype) ==> (r matches Ok(x) && {
            &&& x.wf()
            &&& x.layout.shape@ == shape@
            &&& x.layout.spec_is_contiguous()
            &&& x.dtype == dtype && x.device == device
            &&& forall|i: int|
                0 <= i < seq_prod(shape@) ==> #[trigger] block(x.data@, i, x.esize()) == if one {
                    one_bytes(dtype).unwrap()
                } else {
                    zeros_of(spec_element_size(dtype))
                }
        }),
{
    proof {
        lemma_nonzero_prod_pos(shape@);
        lemma_prod_le_nonzero_prod(shape@);
        lemma_seq_prod_nonneg(shape@);
        let es = spec_element_size(dtype) as int;
        let a = seq_prod(shape@);
        let b = nonzero_prod(shape@);
        assert(a * es <= b * es && a <= a * es) by (nonlinear_arith)
            requires
                es >= 1,
                0 <= a <= b,
        ;
    }
    let n = crate::op_builder::shape_size(shape.as_slice());
    let es = dtype.element_size();
    let pattern = unit_bytes(dtype);
    let elem: Vec<u8> = match pattern {
        Some(p) => if one {
            p
        } else {
            repeat_elem(&vec![0u8], es)
        },
        None => {
            if n > 0 {
                return Err(OpError::DtypeUnsupported);
            }
            Vec::new()
        },
    };
    if n == 0 {
        return Ok(row_major_array(shape, dtype, device, Vec::new()));
    }
    proof {
        if !one {
            assert forall|t: int| 0 <= t < es implies elem@[t] == 0u8 by {
                assert(block(elem@, t, 1) == seq![0u8]);
                assert(block(elem@, t, 1)[0] == elem@[t]);
            }
            assert(elem@ =~= zeros_of(es as nat));
        }
    }
    let data = repeat_elem(&elem, n);
    Ok(row_major_array(shape, dtype, device, data))
}

/// `zeros(shape, dtype, device)`: a new row-major array of zeros (float32 unless a
/// dtype is given) on `device`.
pub fn zeros(shape: &[usize], dtype: Option<Dtype>, device: Device) -> (r: Result<HostArray, OpError>)
    requires
        nonzero_prod(shape@) * spec_element_size(creation_dtype(dtype)) <= isize::MAX,
    ensures
        !fill_ok(seq_prod(shape@), creation_dtype(dtype)) ==> r == Err::<HostArray, OpError>(
            OpError::DtypeUnsupported,
        ),
        fill_ok(seq_prod(shape@), creation_dtype(dtype)) ==> (r matches Ok(x) && {
            &&& x.wf()
            &&& x.layout.shape@ == shape@
            &&& x.layout.spec_is_contiguous()
            &&& x.dtype == creation_dtype(dtype) && x.device == device
            &&& forall|i: int|
                0 <= i < seq_prod(shape@) ==> #[trigger] block(x.data@, i, x.esize()) == zeros_of(
                    spec_element_size(x.dtype),
                )
        }),
{
    let d = match dtype {
        Some(d) => d,
        None => Dtype::Float32,
    };
    constant_array(copy_dims(shape), d, device, false)
}

/// `ones(shape, dtype, device)`: a new row-major array of ones (float32 unless a
/// dtype is given) on `device`.
pub fn ones(shape: &[usize], dtype: Option<Dtype>, device: Device) -> (r: Result<HostArray, OpError>)
    requires
        nonzero_prod(shape@) * spec_element_size(creation_dtype(dtype)) <= isize::MAX,
    ensures
        !fill_ok(seq_prod(shape@), creation_dtype(dtype)) ==> r == Err::<HostArray, OpError>(
            OpError::DtypeUnsupported,
        ),
        fill_ok(seq_prod(shape@), creation_dtype(dtype)) ==> (r matches Ok(x) && {
            &&& x.wf()
            &&& x.layout.shape@ == shape@
            &&& x.layout.spec_is_contiguous()
            &&& x.dtype == creation_dtype(dtype) && x.device == device
            &&& forall|i: int|
                0 <= i < seq_prod(shape@) ==> #[trigger] block(x.data@, i, x.esize()) == one_bytes(
                    x.dtype,
                ).unwrap()
        }),
{
    let d = match dtype {
        Some(d) => d,
        None => Dtype::Float32,
    };
    constant_array(copy_dims(shape), d, device, true)
}

/// `full(shape, value, dtype, device)` with the fill value already encoded as one
/// element of the dtype (`elem`, little-endian): a new row-major array of `shape`
/// (float32 unless a dtype is given) on `device`, every element of which is `elem`.
pub fn full_from_bytes(shape: &[usize], elem: &[u8], dtype: Option<Dtype>, device: Device) -> (r:
    Result<HostArray, OpError>)
    requires
        nonzero_prod(shape@) * spec_element_size(creation_dtype(dtype)) <= isize::MAX,
        elem@.len() == spec_element_size(creation_dtype(dtype)),
    ensures
        !fill_ok(seq_prod(shape@), creation_dtype(dtype)) ==> r == Err::<HostArray, OpError>(
            OpError::DtypeUnsupported,
        ),
        fill_ok(seq_prod(shape@), creation_dtype(dtype)) ==> (r matches Ok(x) && {
            &&& x.wf()
            &&& x.layout.shape@ == shape@
            &&& x.layout.spec_is_contiguous()
            &&& x.dtype == creation_dtype(dtype) && x.device == device
            &&& forall|i: int|
                0 <= i < seq_prod(shape@) ==> #[trigger] block(x.data@, i, x.esize()) == elem@
        }),
{
    let d = match dtype {
        Some(d) => d,
        None => Dtype::Float32,
    };
    let dims = copy_dims(shape);
    proof {
        lemma_nonzero_prod_pos(dims@);
        lemma_prod_le_nonzero_prod(dims@);
        lemma_seq_prod_nonneg(dims@);
        let es = spec_element_size(d) as int;
        let a = seq_prod(dims@);
        let b = nonzero_prod(dims@);
        assert(a * es <= b * es && a <= a * es) by (nonlinear_arith)
            requires
                es >= 1,
                0 <= a <= b,
        ;
    }
    let n = crate::op_builder::shape_size(dims.as_slice());
    if n == 0 {
        return Ok(row_major_array(dims, d, device, Vec::new()));
    }
    if unit_bytes(d).is_none() {
        return Err(OpError::DtypeUnsupported);
    }
    let mut e: Vec<u8> = Vec::new();
    let mut i: usize = 0;
    while i < elem.len()
        invariant
            i <= elem@.len(),
            e@ == elem@.subrange(0, i as int),
        decreases elem@.len() - i,
    {
        e.push(elem[i]);
        assert(e@ =~= elem@.subrange(0, i as int + 1));
        i = i + 1;
    }
    assert(e@ =~= elem@);
    let data = repeat_elem(&e, n);
    Ok(row_major_array(dims, d, device, data))
}

/// `zeros_like(a)`: zeros with `a`'s shape, dtype and device.
pub fn zeros_like(a: &HostArray) -> (r: Result<HostArray, OpError>)
    requires
        nonzero_prod(a.layout.shape@) * a.esize() <= isize::MAX,
    ensures
        !fill_ok(a.numel(), a.dtype) ==> r == Err::<HostArray, OpError>(OpError::DtypeUnsupported),
        fill_ok(a.numel(), a.dtype) ==> (r matches Ok(x) && {
            &&& x.wf()
            &&& x.layout.shape@ == a.layout.shape@
            &&& x.layout.spec_is_contiguous()
            &&& x.dtype == a.dtype && x.device == a.device
            &&& forall|i: int|
                0 <= i < a.numel() ==> #[trigger] block(x.data@, i, x.esize()) == zeros_of(
                    spec_element_size(x.dtype),
                )
        }),
{
    constant_array(a.layout.copy_shape(), a.dtype, a.device, false)
}

/// `ones_like(a)`: ones with `a`'s shape, dtype and device.
pub fn ones_like(a: &HostArray) -> (r: Result<HostArray, OpError>)
    requires
        nonzero_prod(a.layout.shape@) * a.esize() <= isize::MAX,
    ensures
        !fill_ok(a.numel(), a.dtype) ==> r == Err::<HostArray, OpError>(OpError::DtypeUnsupported),
        fill_ok(a.numel(), a.dtype) ==> (r matches Ok(x) && {
            &&& x.wf()
            &&& x.layout.shape@ == a.layout.shape@
            &&& x.layout.spec_is_contiguous()
            &&& x.dtype == a.dtype && x.device == a.device
            &&& forall|i: int|
                0 <= i < a.numel() ==> #[trigger] block(x.data@, i, x.esize()) == one_bytes(
                    x.dtype,
                ).unwrap()
        }),
{
    constant_array(a.layout.copy_shape(), a.dtype, a.device, true)
}

/// A copy of a shape.
fn copy_dims(s: &[usize]) -> (r: Vec<usize>)
    ensures
        r@ == s@,
{
    let mut r: Vec<usize> = Vec::new();
    let mut i: usize = 0;
    while i < s.len()
        invariant
            i <= s.len(),
            r@ == s@.take(i as int),
        decreases s.len() - i,
    {
        r.push(s[i]);
        assert(r@ =~= s@.take(i as int + 1));
        i = i + 1;
    }
    assert(r@ =~= s@);
    r
}


/// The dtypes `eye` can fill.
pub open spec fn eye_dtype_ok(d: Dtype) -> bool {
    d == Dtype::Float32 || d == Dtype::Float64 || d == Dtype::Int64 || d == Dtype::Int32
}

/// Element `idx` (row-major, `m` columns) lies on diagonal `k`: column minus row is `k`.
pub open spec fn on_diagonal(idx: int, m: int, k: int) -> bool {
    idx % m - idx / m == k
}

/// `eye(n, m, k, dtype, device)`: an `n x m` row-major matrix (`m` defaults to `n`)
/// with ones on diagonal `k` (0 the main one, positive above, negative below) and
/// zeros elsewhere; float32 unless a dtype is given, which must be float32, float64,
/// int64 or int32 for a non-empty matrix.
pub fn eye(n: usize, m: Option<usize>, k: i32, dtype: Option<Dtype>, device: Device) -> (r: Result<
    HostArray,
    OpError,
>)
    requires
        n <= i32::MAX,
        (match m {
            Some(c) => c,
            None => n,
        }) <= i32::MAX,
        nonzero_prod(
            seq![
                n,
                match m {
                    Some(c) => c,
                    None => n,
                },
            ],
        ) * spec_element_size(creation_dtype(dtype)) <= isize::MAX,
    ensures
        ({
            let cols = match m {
                Some(c) => c,
                None => n,
            };
            let d = creation_dtype(dtype);
            if n * cols > 0 && !eye_dtype_ok(d) {
                r == Err::<HostArray, OpError>(OpError::DtypeUnsupported)
            } else {
                r matches Ok(x) && {
                    &&& x.wf()
                    &&& x.layout.shape@ == seq![n, cols]
                    &&& x.layout.spec_is_contiguous()
                    &&& x.dtype == d && x.device == device
                    &&& forall|idx: int|
                        0 <= idx < n * cols ==> #[trigger] block(x.data@, idx, x.esize()) == if on_diagonal(
                            idx,
                            cols as int,
                            k as int,
                        ) {
                            one_bytes(d).unwrap()
                        } else {
                            zeros_of(spec_element_size(d))
                        }
                }
            }
        }),
{
    let cols = match m {
        Some(c) => c,
        None => n,
    };
    let d = match dtype {
        Some(d) => d,
        None => Dtype::Float32,
    };
    let ghost shape = seq![n, cols];
    proof {
        reveal_with_fuel(seq_prod, 3);
        reveal_with_fuel(nonzero_prod, 3);
        assert(shape.drop_first() =~= seq![cols]);
        assert(seq![cols].drop_first() =~= Seq::<usize>::empty());
        assert(seq_prod(shape) == n * cols);
        lemma_prod_le_nonzero_prod(shape);
        let es = spec_element_size(d) as int;
        let b = nonzero_prod(shape);
        assert(n * cols * es <= b * es && n * cols <= n * cols * es) by (nonlinear_arith)
            requires
                es >= 1,
                0 <= n * cols <= b,
        ;
    }
    let total = n * cols;
    let es = d.element_size();
    let shape_v = vec![n, cols];
    assert(shape_v@ == shape);
    if total == 0 {
        return Ok(row_major_array(shape_v, d, device, Vec::new()));
    }
    if !(d == Dtype::Float32 || d == Dtype::Float64 || d == Dtype::Int64 || d == Dtype::Int32) {
        return Err(OpError::DtypeUnsupported);
    }
    let one = match unit_bytes(d) {
        Some(p) => p,
        None => {
            return Err(OpError::DtypeUnsupported);
        },
    };
    let zero = repeat_elem(&vec![0u8], es);
    proof {
        assert forall|t: int| 0 <= t < es implies zero@[t] == 0u8 by {
            assert(block(zero@, t, 1) == seq![0u8]);
            assert(block(zero@, t, 1)[0] == zero@[t]);
        }
        assert(zero@ =~= zeros_of(es as nat));
    }
    proof {
        assert(cols > 0) by (nonlinear_arith)
            requires
                total == n * cols,
                total != 0,
        ;
    }
    let mut data: Vec<u8> = Vec::new();
    let mut idx: usize = 0;
    while idx < total
        invariant
            total == n * cols,
            cols > 0,
            cols <= i32::MAX,
            n <= i32::MAX,
            es == spec_element_size(d),
            one@ == one_bytes(d).unwrap(),
            one@.len() == es,
            zero@ == zeros_of(es as nat),
            total * es <= isize::MAX,
            idx <= total,
            data@.len() == idx * es,
            forall|j: int|
                0 <= j < idx ==> #[trigger] block(data@, j, es as int) == if on_diagonal(
                    j,
                    cols as int,
                    k as int,
                ) {
                    one@
                } else {
                    zero@
                },
        decreases total - idx,
    {
        let row = idx / cols;
        let col = idx % cols;
        proof {
            assert(row < n) by (nonlinear_arith)
                requires
                    idx < total,
                    total == n * cols,
                    row == idx / cols,
                    cols > 0,
            ;
        }
        let hit = (col as i64) - (row as i64) == (k as i64);
        let elem = if hit {
            &one
        } else {
            &zero
        };
        let ghost before = data@;
        proof {
            assert((idx + 1) * es <= total * es && (idx + 1) * es == idx * es + es) by (nonlinear_arith)
                requires
                    idx + 1 <= total,
            ;
        }
        let mut b: usize = 0;
        while b < es
            invariant
                es == elem@.len(),
                (idx + 1) * es <= isize::MAX,
                b <= es,
                data@.len() == idx * es + b,
                data@.subrange(0, idx * es) == before,
                before.len() == idx * es,
                forall|t: int| 0 <= t < b ==> #[trigger] data@[idx * es + t] == elem@[t],
            decreases es - b,
        {
            data.push(elem[b]);
            assert(data@.subrange(0, idx * es) =~= before);
            b = b + 1;
        }
        proof {
            crate::linalg::lemma_append_elem(before, data@, idx as int, es as int, elem@);
        }
        idx = idx + 1;
    }
    Ok(row_major_array(shape_v, d, device, data))
}

/// A creation without a dtype gives float32, and one with a dtype gives exactly that
/// dtype.
pub proof fn lemma_creation_dtype(d: Dtype)
    ensures
        creation_dtype(None) == Dtype::Float32,
        creation_dtype(Some(d)) == d,
{
}

} // verus!
