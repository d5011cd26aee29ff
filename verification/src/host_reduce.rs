//! Reductions and running sums of integer arrays held in host memory, computed in
//! int64 arithmetic as the CPU path does (each element converted to int64 first).

use std::sync::Arc;
use vstd::prelude::*;

use crate::dtype::{is_integer, Dtype};
use crate::error::OpError;
use crate::indexing::{
    block, element_index, elem_index, int_coords, lemma_row_major_wf, lemma_unravel_valid,
    unravel, unravel_index, valid_coords, HostArray,
};
use crate::layout::{nonzero_prod, permute_seq, remove_at, seq_prod, suffix_prod, Layout};
use crate::op_builder::ReduceKernel;
use crate::reduction::{drop_axes, drop_axes_upto, iota, keep_axes, strictly_increasing};

verus! {

/// The value of `x`'s integer element at coordinates `c` (little-endian bytes)
/// converted to int64 as Rust's `as` does.
pub open spec fn elem_i64(x: &HostArray, c: Seq<int>) -> i64 {
    let b = x.elem_at(c);
    match x.dtype {
        Dtype::Int8 => (b[0] as i8) as i64,
        Dtype::Uint8 => b[0] as i64,
        Dtype::Int16 => (vstd::bytes::spec_u16_from_le_bytes(b) as i16) as i64,
        Dtype::Uint16 => vstd::bytes::spec_u16_from_le_bytes(b) as i64,
        Dtype::Int32 => (vstd::bytes::spec_u32_from_le_bytes(b) as i32) as i64,
        Dtype::Uint32 => vstd::bytes::spec_u32_from_le_bytes(b) as i64,
        _ => vstd::bytes::spec_u64_from_le_bytes(b) as i64,
    }
}

/// Reads the integer element of `x` at coordinates `c` as int64.
fn read_i64(x: &HostArray, c: &[usize]) -> (r: i64)
    requires
        x.wf(),
        is_integer(x.dtype),
        valid_coords(int_coords(c@), x.layout.shape@),
    ensures
        r == elem_i64(x, int_coords(c@)),
{
    let e = element_index(x, c);
    let es = x.dtype.element_size();
    assert(e * es + es == (e + 1) * es) by (nonlinear_arith);
    let start = e * es;
    let mut bytes: Vec<u8> = Vec::new();
    let mut b: usize = 0;
    while b < es
        invariant
            x.wf(),
            es == x.esize(),
            start + es <= x.data@.len(),
            b <= es,
            bytes@ == x.data@.subrange(start as int, start + b),
        decreases es - b,
    {
        bytes.push(x.data[start + b]);
        assert(bytes@ =~= x.data@.subrange(start as int, start + b + 1));
        b = b + 1;
    }
    assert(bytes@ == x.elem_at(int_coords(c@)));
    match x.dtype {
        Dtype::Int8 => (bytes[0] as i8) as i64,
        Dtype::Uint8 => bytes[0] as i64,
        Dtype::Int16 => (vstd::bytes::u16_from_le_bytes(bytes.as_slice()) as i16) as i64,
        Dtype::Uint16 => vstd::bytes::u16_from_le_bytes(bytes.as_slice()) as i64,
        Dtype::Int32 => (vstd::bytes::u32_from_le_bytes(bytes.as_slice()) as i32) as i64,
        Dtype::Uint32 => vstd::bytes::u32_from_le_bytes(bytes.as_slice()) as i64,
        _ => vstd::bytes::u64_from_le_bytes(bytes.as_slice()) as i64,
    }
}

/// Sum of the values.
pub open spec fn sum_i64(v: Seq<i64>) -> int
    decreases v.len(),
{
    if v.len() == 0 {
        0
    } else {
        sum_i64(v.drop_last()) + v.last()
    }
}

/// Product of the values.
pub open spec fn product_i64(v: Seq<i64>) -> int
    decreases v.len(),
{
    if v.len() == 0 {
        1
    } else {
        product_i64(v.drop_last()) * v.last()
    }
}

/// Position of the first largest (`want_max`) or smallest of `v[0..n]`: a later value
/// replaces the one held only when strictly larger (smaller).
pub open spec fn extreme_index(v: Seq<i64>, n: int, want_max: bool) -> int
    decreases n,
{
    if n <= 1 {
        0
    } else {
        let m = extreme_index(v, n - 1, want_max);
        if (want_max && v[n - 1] > v[m]) || (!want_max && v[n - 1] < v[m]) {
            n - 1
        } else {
            m
        }
    }
}

/// The result of reducing the (non-empty) values `v` with `kernel`.
pub open spec fn reduce_value(kernel: ReduceKernel, v: Seq<i64>) -> int {
    match kernel {
        ReduceKernel::Sum => sum_i64(v),
        ReduceKernel::Prod => product_i64(v),
        ReduceKernel::Max => v[extreme_index(v, v.len() as int, true)] as int,
        ReduceKernel::Min => v[extreme_index(v, v.len() as int, false)] as int,
        ReduceKernel::Argmax => extreme_index(v, v.len() as int, true),
        _ => extreme_index(v, v.len() as int, false),
    }
}

/// Every partial sum (product) of the values fits in int64.
pub open spec fn accumulation_fits(kernel: ReduceKernel, v: Seq<i64>) -> bool {
    match kernel {
        ReduceKernel::Sum => forall|n: int|
            0 <= n <= v.len() ==> i64::MIN <= #[trigger] sum_i64(v.take(n)) <= i64::MAX,
        ReduceKernel::Prod => forall|n: int|
            0 <= n <= v.len() ==> i64::MIN <= #[trigger] product_i64(v.take(n)) <= i64::MAX,
        _ => true,
    }
}

/// The values reduced into output element `o`: along axis `ax` at the other
/// coordinates of `o` (row-major over the remaining dimensions), or, with no axis,
/// all elements in row-major order.
pub open spec fn axis_values(x: &HostArray, axis: Option<usize>, o: int) -> Seq<i64> {
    match axis {
        None => Seq::new(seq_prod(x.layout.shape@) as nat, |k: int| elem_i64(x, unravel(k, x.layout.shape@))),
        Some(ax) => Seq::new(
            x.layout.shape@[ax as int] as nat,
            |k: int| elem_i64(x, unravel(o, remove_at(x.layout.shape@, ax as int)).insert(ax as int, k)),
        ),
    }
}

/// Value `k` of `axis_values(x, axis, o)`; `oc` holds `o`'s coordinates over the
/// dimensions other than the axis.
fn value_at(x: &HostArray, axis: Option<usize>, oc: &Vec<usize>, Ghost(o): Ghost<int>, k: usize) -> (r: i64)
    requires
        x.wf(),
        is_integer(x.dtype),
        seq_prod(x.layout.shape@) <= usize::MAX,
        0 <= k < axis_values(x, axis, o).len(),
        axis matches Some(ax) ==> {
            &&& ax < x.layout.shape@.len()
            &&& int_coords(oc@) == unravel(o, remove_at(x.layout.shape@, ax as int))
            &&& valid_coords(int_coords(oc@), remove_at(x.layout.shape@, ax as int))
        },
    ensures
        r == axis_values(x, axis, o)[k as int],
{
    match axis {
        None => {
            let shape = x.layout.copy_shape();
            proof {
                crate::layout::lemma_seq_prod_nonneg(shape@);
                crate::layout::lemma_all_positive(shape@);
                lemma_unravel_valid(k as int, shape@);
            }
            let c = unravel_index(k, shape.as_slice());
            read_i64(x, c.as_slice())
        },
        Some(ax) => {
            let ghost rest = remove_at(x.layout.shape@, ax as int);
            let mut c: Vec<usize> = Vec::new();
            let mut d: usize = 0;
            while d < ax
                invariant
                    ax < x.layout.shape@.len(),
                    rest == remove_at(x.layout.shape@, ax as int),
                    oc@.len() == rest.len(),
                    d <= ax,
                    c@ == oc@.take(d as int),
                decreases ax - d,
            {
                c.push(oc[d]);
                assert(c@ =~= oc@.take(d as int + 1));
                d = d + 1;
            }
            c.push(k);
            let n = oc.len();
            let mut e: usize = ax;
            while e < n
                invariant
                    ax < x.layout.shape@.len(),
                    oc@.len() == n,
                    ax <= e <= n,
                    c@ == oc@.take(ax as int).push(k) + oc@.subrange(ax as int, e as int),
                decreases n - e,
            {
                c.push(oc[e]);
                assert(c@ =~= oc@.take(ax as int).push(k) + oc@.subrange(ax as int, e as int + 1));
                e = e + 1;
            }
            proof {
                let ins = int_coords(oc@).insert(ax as int, k as int);
                assert(int_coords(c@) =~= ins);
                assert(valid_coords(ins, x.layout.shape@)) by {
                    assert forall|j: int| 0 <= j < ins.len() implies 0 <= #[trigger] ins[j]
                        < x.layout.shape@[j] by {
                        if j < ax {
                            assert(ins[j] == int_coords(oc@)[j] && rest[j] == x.layout.shape@[j]);
                        } else if j > ax {
                            assert(ins[j] == int_coords(oc@)[j - 1] && rest[j - 1]
                                == x.layout.shape@[j]);
                        }
                    }
                }
            }
            read_i64(x, c.as_slice())
        },
    }
}

/// Reduces the (non-empty) values of output element `o` with `kernel`.
fn fold_values(
    x: &HostArray,
    axis: Option<usize>,
    oc: &Vec<usize>,
    Ghost(o): Ghost<int>,
    len: usize,
    kernel: ReduceKernel,
) -> (r: i64)
    requires
        x.wf(),
        is_integer(x.dtype),
        seq_prod(x.layout.shape@) <= usize::MAX,
        len == axis_values(x, axis, o).len(),
        0 < len <= isize::MAX,
        kernel != ReduceKernel::Mean,
        accumulation_fits(kernel, axis_values(x, axis, o)),
        axis matches Some(ax) ==> {
            &&& ax < x.layout.shape@.len()
            &&& int_coords(oc@) == unravel(o, remove_at(x.layout.shape@, ax as int))
            &&& valid_coords(int_coords(oc@), remove_at(x.layout.shape@, ax as int))
        },
    ensures
        r == reduce_value(kernel, axis_values(x, axis, o)),
{
    let ghost v = axis_values(x, axis, o);
    match kernel {
        ReduceKernel::Sum | ReduceKernel::Prod => {
            let is_sum = kernel == ReduceKernel::Sum;
            let mut acc: i64 = if is_sum { 0 } else { 1 };
            let mut k: usize = 0;
            proof {
                assert(v.take(0) =~= Seq::<i64>::empty());
            }
            while k < len
                invariant
                    x.wf(),
                    is_integer(x.dtype),
                    seq_prod(x.layout.shape@) <= usize::MAX,
                    v == axis_values(x, axis, o),
                    len == v.len(),
                    is_sum == (kernel == ReduceKernel::Sum),
                    kernel == ReduceKernel::Sum || kernel == ReduceKernel::Prod,
                    accumulation_fits(kernel, v),
                    axis matches Some(ax) ==> {
                        &&& ax < x.layout.shape@.len()
                        &&& int_coords(oc@) == unravel(o, remove_at(x.layout.shape@, ax as int))
                        &&& valid_coords(int_coords(oc@), remove_at(x.layout.shape@, ax as int))
                    },
                    k <= len,
                    acc == (if is_sum { sum_i64(v.take(k as int)) } else { product_i64(v.take(k as int)) }),
                decreases len - k,
            {
                let val = value_at(x, axis, oc, Ghost(o), k);
                proof {
                    assert(v.take(k as int + 1).drop_last() =~= v.take(k as int));
                    assert(v.take(k as int + 1).last() == v[k as int]);
                    let _ = sum_i64(v.take(k as int + 1));
                    let _ = product_i64(v.take(k as int + 1));
                }
                if is_sum {
                    acc = acc + val;
                } else {
                    acc = acc * val;
                }
                k = k + 1;
            }
            proof {
                assert(v.take(len as int) =~= v);
            }
            acc
        },
        _ => {
            let want_max = kernel == ReduceKernel::Max || kernel == ReduceKernel::Argmax;
            let mut best_idx: usize = 0;
            let mut best_val: i64 = value_at(x, axis, oc, Ghost(o), 0);
            let mut k: usize = 1;
            while k < len
                invariant
                    x.wf(),
                    is_integer(x.dtype),
                    seq_prod(x.layout.shape@) <= usize::MAX,
                    v == axis_values(x, axis, o),
                    len == v.len(),
                    axis matches Some(ax) ==> {
                        &&& ax < x.layout.shape@.len()
                        &&& int_coords(oc@) == unravel(o, remove_at(x.layout.shape@, ax as int))
                        &&& valid_coords(int_coords(oc@), remove_at(x.layout.shape@, ax as int))
                    },
                    1 <= k <= len,
                    len <= isize::MAX,
                    best_idx == extreme_index(v, k as int, want_max),
                    best_idx < k,
                    best_val == v[best_idx as int],
                decreases len - k,
            {
                let val = value_at(x, axis, oc, Ghost(o), k);
                if (want_max && val > best_val) || (!want_max && val < best_val) {
                    best_idx = k;
                    best_val = val;
                }
                k = k + 1;
            }
            if kernel == ReduceKernel::Argmax || kernel == ReduceKernel::Argmin {
                best_idx as i64
            } else {
                best_val
            }
        },
    }
}

/// A dimension is at most the zero-free product of its shape.
proof fn lemma_dim_le_nonzero_prod(s: Seq<usize>, k: int)
    requires
        0 <= k < s.len(),
    ensures
        s[k] <= nonzero_prod(s),
    decreases s.len(),
{
    crate::layout::lemma_nonzero_prod_pos(s.drop_first());
    let f: int = if s[0] == 0 { 1 } else { s[0] as int };
    let r = nonzero_prod(s.drop_first());
    if k == 0 {
        assert(s[0] <= f * r) by (nonlinear_arith)
            requires
                f >= 1,
                r >= 1,
                s[0] <= f,
        ;
    } else {
        lemma_dim_le_nonzero_prod(s.drop_first(), k - 1);
        assert(s.drop_first()[k - 1] == s[k]);
        assert(r <= f * r) by (nonlinear_arith)
            requires
                f >= 1,
                r >= 1,
        ;
    }
}

/// Setting a dimension to 1 gives the element count of dropping it.
proof fn lemma_prod_update_one(s: Seq<usize>, k: int)
    requires
        0 <= k < s.len(),
    ensures
        seq_prod(s.update(k, 1usize)) == seq_prod(remove_at(s, k)),
{
    let a = s.take(k);
    let b = s.skip(k + 1);
    assert(s.update(k, 1usize) =~= a + (seq![1usize] + b));
    assert(remove_at(s, k) =~= a + b);
    crate::layout::lemma_seq_prod_concat(a, seq![1usize] + b);
    crate::layout::lemma_seq_prod_concat(seq![1usize], b);
    crate::layout::lemma_seq_prod_concat(a, b);
    assert(seq_prod(seq![1usize]) == 1) by {
        assert(seq![1usize].drop_first() =~= Seq::<usize>::empty());
        reveal_with_fuel(seq_prod, 2);
    }
}

/// The axis is not a dimension of an array of rank `ndim`.
pub open spec fn axis_out_of_range(axis: Option<usize>, ndim: nat) -> bool {
    match axis {
        Some(ax) => ax >= ndim,
        None => false,
    }
}

/// The number of values reduced into each output element.
pub open spec fn reduced_len(x: &HostArray, axis: Option<usize>) -> int {
    match axis {
        Some(ax) => x.layout.shape@[ax as int] as int,
        None => x.numel(),
    }
}

/// `kernel` (not `mean`) reduced over `axis` of an integer array in host memory, or
/// over all its elements when `axis` is `None`, computed in int64 as the CPU path
/// does: sums and products accumulate in order, max/min keep the first extremum,
/// argmax/argmin return its position along the axis (the flat row-major position
/// with no axis). The result is a new row-major int64 array of the reduced shape
/// (the axis kept as size 1 with `keepdims`; all dimensions 1 or none with no axis).
/// An axis outside `x` is `ShapeMismatch`.
pub fn reduce_int64(x: &HostArray, axis: Option<usize>, keepdims: bool, kernel: ReduceKernel) -> (r:
    Result<HostArray, OpError>)
    requires
        x.wf(),
        is_integer(x.dtype),
        nonzero_prod(x.layout.shape@) * 8 <= isize::MAX,
        kernel != ReduceKernel::Mean,
        !axis_out_of_range(axis, x.layout.shape@.len()) ==> reduced_len(x, axis) > 0,
        forall|o: int|
            0 <= o < seq_prod(crate::op_builder::reduce_out_shape(x.layout.shape@, axis, keepdims))
                ==> accumulation_fits(kernel, #[trigger] axis_values(x, axis, o)),
    ensures
        axis_out_of_range(axis, x.layout.shape@.len()) ==> r == Err::<HostArray, OpError>(
            OpError::ShapeMismatch,
        ),
        !axis_out_of_range(axis, x.layout.shape@.len()) ==> (r matches Ok(g) && {
            let shape = crate::op_builder::reduce_out_shape(x.layout.shape@, axis, keepdims);
            &&& g.wf()
            &&& g.layout.shape@ == shape
            &&& g.layout.spec_is_contiguous()
            &&& g.dtype == Dtype::Int64 && g.device == x.device
            &&& forall|o: int|
                0 <= o < seq_prod(shape) ==> #[trigger] block(g.data@, o, 8)
                    == vstd::bytes::spec_u64_to_le_bytes(
                    (reduce_value(kernel, axis_values(x, axis, o)) as i64) as u64,
                )
        }),
{
    let ndim = x.layout.shape.len();
    let shape = x.layout.copy_shape();
    let mut rest: Vec<usize> = Vec::new();
    let mut out_shape: Vec<usize> = Vec::new();
    let len: usize;
    match axis {
        Some(ax) => {
            if ax >= ndim {
                return Err(OpError::ShapeMismatch);
            }
            let mut d: usize = 0;
            while d < ndim
                invariant
                    ndim == shape@.len(),
                    shape@ == x.layout.shape@,
                    ax < ndim,
                    d <= ndim,
                    rest@ == (if d <= ax { shape@.take(d as int) } else { remove_at(shape@, ax as int).take(d - 1) }),
                decreases ndim - d,
            {
                if d != ax {
                    rest.push(shape[d]);
                }
                proof {
                    if d < ax {
                        assert(rest@ =~= shape@.take(d + 1));
                    } else if d == ax {
                        assert(shape@.take(d as int) =~= remove_at(shape@, ax as int).take(d as int));
                    } else {
                        assert(rest@ =~= remove_at(shape@, ax as int).take(d as int));
                    }
                }
                d = d + 1;
            }
            proof {
                if ax + 1 == ndim {
                    assert(rest@ =~= remove_at(shape@, ax as int)) by {
                        assert(shape@.take(ndim as int - 1) =~= remove_at(shape@, ax as int));
                    }
                }
                assert(rest@ =~= remove_at(shape@, ax as int));
                lemma_dim_le_nonzero_prod(shape@, ax as int);
            }
            len = shape[ax];
            if keepdims {
                out_shape = x.layout.copy_shape();
                out_shape.set(ax, 1);
            } else {
                out_shape = rest.clone();
                proof {
                    assert(out_shape@ == rest@);
                }
            }
        },
        None => {
            proof {
                crate::layout::lemma_prod_le_nonzero_prod(shape@);
            }
            len = crate::op_builder::shape_size(shape.as_slice());
            if keepdims {
                let mut d: usize = 0;
                while d < ndim
                    invariant
                        d <= ndim,
                        out_shape@ == Seq::new(d as nat, |i: int| 1usize),
                    decreases ndim - d,
                {
                    out_shape.push(1);
                    assert(out_shape@ =~= Seq::new(d as nat + 1, |i: int| 1usize));
                    d = d + 1;
                }
            }
        },
    }
    let ghost oshape = crate::op_builder::reduce_out_shape(x.layout.shape@, axis, keepdims);
    proof {
        assert(out_shape@ =~= oshape);
        crate::layout::lemma_nonzero_prod_pos(shape@);
        match axis {
            Some(ax) => {
                if keepdims {
                    crate::layout::lemma_nonzero_prod_update_one(shape@, ax as int);
                    lemma_prod_update_one(shape@, ax as int);
                } else {
                    crate::layout::lemma_nonzero_prod_remove(shape@, ax as int);
                }
                crate::layout::lemma_prod_le_nonzero_prod(rest@);
            },
            None => {
                crate::op_builder::lemma_ones_prod(if keepdims { ndim as nat } else { 0 });
                assert(seq_prod(Seq::<usize>::empty()) == 1);
                crate::layout::lemma_nonzero_prod_pos(oshape);
                crate::layout::lemma_prod_le_nonzero_prod(oshape);
                if keepdims {
                    assert(oshape =~= Seq::new(ndim as nat, |i: int| 1usize));
                }
                assert(nonzero_prod(oshape) <= nonzero_prod(shape@)) by {
                    if keepdims {
                        crate::layout::lemma_prod_le_nonzero_prod(oshape);
                        assert(nonzero_prod(oshape) == 1) by {
                            crate::layout::lemma_nonzero_prod_concat(oshape, Seq::<usize>::empty());
                            lemma_ones_nonzero(ndim as nat);
                        }
                    }
                }
            },
        }
        crate::layout::lemma_prod_le_nonzero_prod(shape@);
        crate::layout::lemma_prod_le_nonzero_prod(oshape);
        crate::layout::lemma_nonzero_prod_pos(oshape);
        crate::layout::lemma_seq_prod_nonneg(oshape);
        let z = nonzero_prod(oshape);
        assert(z * 8 <= nonzero_prod(shape@) * 8);
        assert(seq_prod(oshape) * 8 <= z * 8);
    }
    let count = crate::op_builder::shape_size(out_shape.as_slice());
    let mut data: Vec<u8> = Vec::new();
    let mut o: usize = 0;
    while o < count
        invariant
            x.wf(),
            is_integer(x.dtype),
            kernel != ReduceKernel::Mean,
            shape@ == x.layout.shape@,
            ndim == shape@.len(),
            seq_prod(x.layout.shape@) <= usize::MAX,
            oshape == crate::op_builder::reduce_out_shape(x.layout.shape@, axis, keepdims),
            count == seq_prod(oshape),
            count * 8 <= isize::MAX,
            axis matches Some(ax) ==> ax < ndim && rest@ == remove_at(shape@, ax as int) && seq_prod(
                rest@,
            ) == count && len == shape@[ax as int],
            axis is None ==> count == 1 && len == seq_prod(shape@),
            0 < len <= isize::MAX,
            forall|o2: int|
                0 <= o2 < count ==> accumulation_fits(kernel, #[trigger] axis_values(x, axis, o2)),
            o <= count,
            data@.len() == o * 8,
            forall|j: int|
                0 <= j < o ==> #[trigger] block(data@, j, 8) == vstd::bytes::spec_u64_to_le_bytes(
                    (reduce_value(kernel, axis_values(x, axis, j)) as i64) as u64,
                ),
        decreases count - o,
    {
        let oc: Vec<usize> = match axis {
            Some(ax) => {
                proof {
                    crate::layout::lemma_all_positive(rest@);
                    lemma_unravel_valid(o as int, rest@);
                }
                unravel_index(o, rest.as_slice())
            },
            None => Vec::new(),
        };
        let val = fold_values(x, axis, &oc, Ghost(o as int), len, kernel);
        let bytes = vstd::bytes::u64_to_le_bytes(val as u64);
        let ghost before = data@;
        let mut b: usize = 0;
        while b < 8
            invariant
                bytes@.len() == 8,
                b <= 8,
                data@.len() == o * 8 + b,
                data@.subrange(0, o * 8) == before,
                before.len() == o * 8,
                forall|t: int| 0 <= t < b ==> #[trigger] data@[o * 8 + t] == bytes@[t],
            decreases 8 - b,
        {
            data.push(bytes[b]);
            assert(data@.subrange(0, o * 8) =~= before);
            b = b + 1;
        }
        proof {
            crate::linalg::lemma_append_elem(before, data@, o as int, 8, bytes@);
        }
        o = o + 1;
    }
    proof {
        assert forall|kk: int| 0 <= kk <= oshape.len() implies #[trigger] crate::layout::suffix_prod(
            oshape,
            kk,
        ) <= isize::MAX by {
            crate::layout::lemma_nonzero_prod_suffix(oshape, kk);
            crate::layout::lemma_prod_le_nonzero_prod(oshape.subrange(kk, oshape.len() as int));
        }
    }
    let layout = Layout::from_shape(out_shape);
    let g = HostArray { layout, dtype: Dtype::Int64, device: x.device, data: Arc::new(data) };
    proof {
        lemma_row_major_wf(&g);
    }
    Ok(g)
}

/// A shape of ones has a zero-free product of 1.
proof fn lemma_ones_nonzero(n: nat)
    ensures
        nonzero_prod(Seq::new(n, |i: int| 1usize)) == 1,
    decreases n,
{
    if n > 0 {
        lemma_ones_nonzero((n - 1) as nat);
        assert(Seq::new(n, |i: int| 1usize).drop_first() =~= Seq::new((n - 1) as nat, |i: int| 1usize));
    }
}

/// The values summed into element `o` of a running sum: along axis `ax` up to `o`'s
/// coordinate on it, or, with no axis, the first `o + 1` elements in row-major order.
pub open spec fn cumsum_values(x: &HostArray, axis: Option<usize>, o: int) -> Seq<i64> {
    match axis {
        None => Seq::new((o + 1) as nat, |k: int| elem_i64(x, unravel(k, x.layout.shape@))),
        Some(ax) => {
            let c = unravel(o, x.layout.shape@);
            Seq::new((c[ax as int] + 1) as nat, |k: int| elem_i64(x, c.update(ax as int, k)))
        },
    }
}

/// The shape of a running sum: `x`'s, or its element count with no axis.
pub open spec fn cumsum_shape(x: &HostArray, axis: Option<usize>) -> Seq<usize> {
    match axis {
        Some(ax) => x.layout.shape@,
        None => seq![seq_prod(x.layout.shape@) as usize],
    }
}

/// Sums the values of running-sum element `o`; `c` holds `o`'s coordinates.
fn prefix_sum(x: &HostArray, axis: Option<usize>, c: &Vec<usize>, Ghost(o): Ghost<int>) -> (r: i64)
    requires
        x.wf(),
        is_integer(x.dtype),
        all_positive_shape(x),
        0 <= o < seq_prod(x.layout.shape@) <= usize::MAX,
        int_coords(c@) == unravel(o, x.layout.shape@),
        axis matches Some(ax) ==> ax < x.layout.shape@.len(),
        accumulation_fits(ReduceKernel::Sum, cumsum_values(x, axis, o)),
    ensures
        r == sum_i64(cumsum_values(x, axis, o)),
{
    let ghost v = cumsum_values(x, axis, o);
    let ghost shape = x.layout.shape@;
    proof {
        lemma_unravel_valid(o, shape);
    }
    let mut cc = c.clone();
    proof {
        assert(cc@ == c@);
    }
    let len: usize = match axis {
        Some(ax) => c[ax] + 1,
        None => {
            proof {
                assert(c@.len() == shape.len());
            }
            let lin = o_position(x, c, Ghost(o));
            lin + 1
        },
    };
    let mut acc: i64 = 0;
    let mut k: usize = 0;
    proof {
        assert(v.take(0) =~= Seq::<i64>::empty());
    }
    while k < len
        invariant
            x.wf(),
            is_integer(x.dtype),
            all_positive_shape(x),
            shape == x.layout.shape@,
            seq_prod(shape) <= usize::MAX,
            v == cumsum_values(x, axis, o),
            len == v.len(),
            0 <= o < seq_prod(shape),
            int_coords(c@) == unravel(o, shape),
            valid_coords(int_coords(c@), shape),
            cc@.len() == c@.len(),
            axis matches Some(ax) ==> ax < shape.len() && forall|j: int|
                0 <= j < c@.len() && j != ax ==> #[trigger] cc@[j] == c@[j],
            accumulation_fits(ReduceKernel::Sum, v),
            k <= len,
            acc == sum_i64(v.take(k as int)),
        decreases len - k,
    {
        let val: i64 = match axis {
            Some(ax) => {
                cc.set(ax, k);
                proof {
                    assert(int_coords(cc@) =~= unravel(o, shape).update(ax as int, k as int));
                    assert(valid_coords(int_coords(cc@), shape)) by {
                        assert forall|j: int| 0 <= j < shape.len() implies 0 <= #[trigger] int_coords(
                            cc@,
                        )[j] < shape[j] by {
                            if j != ax {
                                assert(int_coords(cc@)[j] == int_coords(c@)[j]);
                            } else {
                                assert(k <= c@[j]);
                                assert(int_coords(c@)[j] < shape[j]);
                            }
                        }
                    }
                }
                read_i64(x, cc.as_slice())
            },
            None => {
                proof {
                    lemma_unravel_valid(k as int, shape);
                }
                let ck = unravel_index(k, x.layout.shape.as_slice());
                read_i64(x, ck.as_slice())
            },
        };
        proof {
            assert(val == v[k as int]);
            assert(v.take(k as int + 1).drop_last() =~= v.take(k as int));
            assert(v.take(k as int + 1).last() == v[k as int]);
            let _ = sum_i64(v.take(k as int + 1));
        }
        acc = acc + val;
        k = k + 1;
    }
    proof {
        assert(v.take(len as int) =~= v);
    }
    acc
}

/// No dimension of `x` is empty.
pub open spec fn all_positive_shape(x: &HostArray) -> bool {
    crate::layout::all_positive(x.layout.shape@)
}

/// The row-major position of the coordinates of the `o`-th element, which is `o`.
fn o_position(x: &HostArray, c: &Vec<usize>, Ghost(o): Ghost<int>) -> (r: usize)
    requires
        all_positive_shape(x),
        0 <= o < seq_prod(x.layout.shape@) <= usize::MAX,
        int_coords(c@) == unravel(o, x.layout.shape@),
    ensures
        r == o,
{
    let shape = x.layout.copy_shape();
    proof {
        lemma_unravel_valid(o, shape@);
        crate::indexing::lemma_row_major_of_unravel(o, shape@, 0);
        crate::layout::lemma_suffix_full(shape@);
        vstd::arithmetic::div_mod::lemma_small_mod(o as nat, seq_prod(shape@) as nat);
    }
    crate::indexing::row_major_position(shape.as_slice(), c.as_slice())
}

/// `cumsum(x, axis)` of an integer array in host memory, computed in int64 as the CPU
/// path does: a new row-major array of `x`'s shape (of one dimension, its element
/// count, with no axis) whose element `o` is the sum of the elements along `axis` up
/// to and including `o`'s coordinate on it (with no axis, of the first `o + 1`
/// elements in row-major order). An axis outside `x` is `ShapeMismatch`.
pub fn cumsum_int64(x: &HostArray, axis: Option<usize>) -> (r: Result<HostArray, OpError>)
    requires
        x.wf(),
        is_integer(x.dtype),
        nonzero_prod(x.layout.shape@) * 8 <= isize::MAX,
        forall|o: int|
            0 <= o < x.numel() ==> accumulation_fits(
                ReduceKernel::Sum,
                #[trigger] cumsum_values(x, axis, o),
            ),
    ensures
        axis_out_of_range(axis, x.layout.shape@.len()) ==> r == Err::<HostArray, OpError>(
            OpError::ShapeMismatch,
        ),
        !axis_out_of_range(axis, x.layout.shape@.len()) ==> (r matches Ok(g) && {
            &&& g.wf()
            &&& g.layout.shape@ == cumsum_shape(x, axis)
            &&& g.layout.spec_is_contiguous()
            &&& g.dtype == Dtype::Int64 && g.device == x.device
            &&& forall|o: int|
                0 <= o < x.numel() ==> #[trigger] block(g.data@, o, 8)
                    == vstd::bytes::spec_u64_to_le_bytes(
                    (sum_i64(cumsum_values(x, axis, o)) as i64) as u64,
                )
        }),
{
    let ndim = x.layout.shape.len();
    if let Some(ax) = axis {
        if ax >= ndim {
            return Err(OpError::ShapeMismatch);
        }
    }
    let shape = x.layout.copy_shape();
    proof {
        crate::layout::lemma_prod_le_nonzero_prod(shape@);
        crate::layout::lemma_nonzero_prod_pos(shape@);
        crate::layout::lemma_seq_prod_nonneg(shape@);
    }
    let n = crate::op_builder::shape_size(shape.as_slice());
    let out_shape: Vec<usize> = match axis {
        Some(_) => x.layout.copy_shape(),
        None => vec![n],
    };
    let ghost oshape = cumsum_shape(x, axis);
    proof {
        assert(out_shape@ =~= oshape);
        match axis {
            Some(_) => {},
            None => {
                reveal_with_fuel(seq_prod, 2);
                reveal_with_fuel(nonzero_prod, 2);
                assert(seq![n].drop_first() =~= Seq::<usize>::empty());
                crate::layout::lemma_prod_le_nonzero_prod(shape@);
            },
        }
        assert(seq_prod(oshape) == n);
        assert(nonzero_prod(oshape) <= nonzero_prod(shape@)) by {
            if axis is None {
                reveal_with_fuel(nonzero_prod, 2);
                assert(seq![n].drop_first() =~= Seq::<usize>::empty());
            }
        }
    }
    let mut data: Vec<u8> = Vec::new();
    let mut o: usize = 0;
    while o < n
        invariant
            x.wf(),
            is_integer(x.dtype),
            shape@ == x.layout.shape@,
            n == seq_prod(shape@),
            n * 8 <= isize::MAX,
            axis matches Some(ax) ==> ax < shape@.len(),
            forall|o2: int|
                0 <= o2 < x.numel() ==> accumulation_fits(
                    ReduceKernel::Sum,
                    #[trigger] cumsum_values(x, axis, o2),
                ),
            o <= n,
            data@.len() == o * 8,
            forall|j: int|
                0 <= j < o ==> #[trigger] block(data@, j, 8) == vstd::bytes::spec_u64_to_le_bytes(
                    (sum_i64(cumsum_values(x, axis, j)) as i64) as u64,
                ),
        decreases n - o,
    {
        proof {
            crate::layout::lemma_all_positive(shape@);
        }
        let c = unravel_index(o, shape.as_slice());
        let val = prefix_sum(x, axis, &c, Ghost(o as int));
        let bytes = vstd::bytes::u64_to_le_bytes(val as u64);
        let ghost before = data@;
        let mut b: usize = 0;
        while b < 8
            invariant
                bytes@.len() == 8,
                b <= 8,
                data@.len() == o * 8 + b,
                data@.subrange(0, o * 8) == before,
                before.len() == o * 8,
                forall|t: int| 0 <= t < b ==> #[trigger] data@[o * 8 + t] == bytes@[t],
            decreases 8 - b,
        {
            data.push(bytes[b]);
            assert(data@.subrange(0, o * 8) =~= before);
            b = b + 1;
        }
        proof {
            crate::linalg::lemma_append_elem(before, data@, o as int, 8, bytes@);
        }
        o = o + 1;
    }
    proof {
        assert forall|kk: int| 0 <= kk <= oshape.len() implies #[trigger] crate::layout::suffix_prod(
            oshape,
            kk,
        ) <= isize::MAX by {
            crate::layout::lemma_nonzero_prod_suffix(oshape, kk);
            crate::layout::lemma_prod_le_nonzero_prod(oshape.subrange(kk, oshape.len() as int));
            crate::layout::lemma_nonzero_prod_pos(shape@);
        }
    }
    let layout = Layout::from_shape(out_shape);
    let g = HostArray { layout, dtype: Dtype::Int64, device: x.device, data: Arc::new(data) };
    proof {
        lemma_row_major_wf(&g);
    }
    Ok(g)
}

/// argmax (argmin) picks the first position of the largest (smallest) value: among
/// the first `n >= 1` values, `extreme_index` is a position whose value no value
/// exceeds (undercuts), and every earlier value is strictly smaller (larger).
pub proof fn lemma_extreme_index_first(v: Seq<i64>, n: int, want_max: bool)
    requires
        1 <= n <= v.len(),
    ensures
        0 <= extreme_index(v, n, want_max) < n,
        forall|j: int|
            0 <= j < n ==> if want_max {
                #[trigger] v[j] <= v[extreme_index(v, n, want_max)]
            } else {
                v[j] >= v[extreme_index(v, n, want_max)]
            },
        forall|j: int|
            0 <= j < extreme_index(v, n, want_max) ==> if want_max {
                #[trigger] v[j] < v[extreme_index(v, n, want_max)]
            } else {
                v[j] > v[extreme_index(v, n, want_max)]
            },
    decreases n,
{
    if n > 1 {
        lemma_extreme_index_first(v, n - 1, want_max);
    }
}

/// The sum of a concatenation is the sum of the parts'.
proof fn lemma_sum_concat(a: Seq<i64>, b: Seq<i64>)
    ensures
        sum_i64(a + b) == sum_i64(a) + sum_i64(b),
    decreases b.len(),
{
    if b.len() == 0 {
        assert(a + b =~= a);
    } else {
        lemma_sum_concat(a, b.drop_last());
        assert((a + b).drop_last() =~= a + b.drop_last());
    }
}

/// The `lin`-th element of a shape whose last dimension has `len` entries, with
/// `lin = o * len + k`, sits at the `o`-th coordinates of the other dimensions
/// followed by `k`.
proof fn lemma_unravel_last(o: int, k: int, shape: Seq<usize>)
    requires
        shape.len() >= 1,
        crate::layout::all_positive(shape),
        o >= 0,
        0 <= k < shape.last(),
    ensures
        unravel(o * (shape.last() as int) + k, shape) == unravel(o, shape.drop_last()).push(k),
{
    let n = shape.len() as int;
    let l = shape.last() as int;
    let rest = shape.drop_last();
    let lin = o * l + k;
    vstd::arithmetic::div_mod::lemma_fundamental_div_mod_converse(lin, l, o, k);
    assert forall|d: int| 0 <= d < n implies unravel(lin, shape)[d] == unravel(o, rest).push(k)[d] by {
        if d == n - 1 {
            crate::layout::lemma_suffix_end(shape);
        } else {
            let sr = suffix_prod(rest, d + 1);
            assert(shape.subrange(d + 1, n) =~= rest.subrange(d + 1, n - 1) + seq![l as usize]);
            crate::layout::lemma_seq_prod_concat(rest.subrange(d + 1, n - 1), seq![l as usize]);
            assert(crate::layout::seq_prod(seq![l as usize]) == l) by {
                assert(seq![l as usize].drop_first() =~= Seq::<usize>::empty());
                reveal_with_fuel(crate::layout::seq_prod, 2);
            }
            assert(suffix_prod(shape, d + 1) == sr * l);
            crate::layout::lemma_suffix_positive(rest, d + 1);
            vstd::arithmetic::div_mod::lemma_div_denominator(lin, l, sr);
            assert(sr * l == l * sr) by (nonlinear_arith);
            assert(rest[d] == shape[d]);
        }
    }
    assert(unravel(lin, shape) =~= unravel(o, rest).push(k));
}

/// Sums of the last-axis reductions of the first `m` output elements.
pub open spec fn last_axis_sums(x: &HostArray, m: int) -> int
    decreases m,
{
    if m <= 0 {
        0
    } else {
        last_axis_sums(x, m - 1) + sum_i64(
            axis_values(x, Some((x.layout.shape@.len() - 1) as usize), m - 1),
        )
    }
}

/// Summing all elements equals summing along the last axis and then summing the
/// results: one axis at a time gives the same total as all axes at once.
pub proof fn lemma_sum_one_axis_at_a_time(x: &HostArray)
    requires
        x.layout.shape@.len() >= 1,
        crate::layout::all_positive(x.layout.shape@),
    ensures
        sum_i64(axis_values(x, None, 0)) == last_axis_sums(
            x,
            seq_prod(x.layout.shape@.drop_last()),
        ),
{
    let shape = x.layout.shape@;
    let n = shape.len() as int;
    assert(n == x.layout.shape.len());
    let ax = (n - 1) as usize;
    let l = shape.last() as int;
    let rest = shape.drop_last();
    let r = seq_prod(rest);
    let all = axis_values(x, None, 0);
    assert(remove_at(shape, ax as int) =~= rest);
    assert(shape =~= rest + seq![l as usize]);
    crate::layout::lemma_seq_prod_concat(rest, seq![l as usize]);
    assert(crate::layout::seq_prod(seq![l as usize]) == l) by {
        assert(seq![l as usize].drop_first() =~= Seq::<usize>::empty());
        reveal_with_fuel(crate::layout::seq_prod, 2);
    }
    crate::layout::lemma_seq_prod_nonneg(rest);
    assert(all.len() == r * l);
    lemma_sum_blocks(x, r);
    assert(all.take(r * l) =~= all);
}

/// The first `m` blocks of `len` elements (last dimension) sum to the first `m`
/// last-axis sums.
proof fn lemma_sum_blocks(x: &HostArray, m: int)
    requires
        x.layout.shape@.len() >= 1,
        crate::layout::all_positive(x.layout.shape@),
        0 <= m <= seq_prod(x.layout.shape@.drop_last()),
        seq_prod(x.layout.shape@) == seq_prod(x.layout.shape@.drop_last()) * (x.layout.shape@.last() as int),
    ensures
        sum_i64(axis_values(x, None, 0).take(m * (x.layout.shape@.last() as int)))
            == last_axis_sums(x, m),
    decreases m,
{
    let shape = x.layout.shape@;
    let n = shape.len() as int;
    assert(n == x.layout.shape.len());
    let ax = (n - 1) as usize;
    let l = shape.last() as int;
    let rest = shape.drop_last();
    let r = seq_prod(rest);
    let all = axis_values(x, None, 0);
    assert(l >= 1);
    assert(n == x.layout.shape.len());
    if m == 0 {
        assert(m * l == 0) by (nonlinear_arith)
            requires
                m == 0,
        ;
        assert(all.take(0) =~= Seq::<i64>::empty());
    } else {
        let p = m - 1;
        lemma_sum_blocks(x, p);
        assert(remove_at(shape, ax as int) =~= rest);
        let block_vals = axis_values(x, Some(ax), p);
        assert(m * l == p * l + l && p * l + l <= r * l) by (nonlinear_arith)
            requires
                m == p + 1,
                m <= r,
                l >= 1,
        ;
        assert(all.take(m * l) =~= all.take(p * l) + all.subrange(p * l, p * l + l));
        assert(all.subrange(p * l, p * l + l) =~= block_vals) by {
            assert forall|k: int| 0 <= k < l implies all.subrange(p * l, p * l + l)[k] == block_vals[k] by {
                lemma_unravel_last(p, k, shape);
                assert(unravel(p, rest).push(k) =~= unravel(p, rest).insert(ax as int, k));
            }
        }
        lemma_sum_concat(all.take(p * l), block_vals);
        assert(last_axis_sums(x, m) == last_axis_sums(x, p) + sum_i64(block_vals));
    }
}

// ── argmax / argmin over several axes ───────────────────────────

/// Number of the dimensions `0..i` that are not among `v`.
pub open spec fn kept_count(v: Seq<usize>, i: int) -> int
    decreases i,
{
    if i <= 0 {
        0
    } else {
        kept_count(v, i - 1) + (if v.contains((i - 1) as usize) {
            0int
        } else {
            1int
        })
    }
}

/// Coordinates over dimensions `0..i` of the element whose coordinates are `kc` along
/// the dimensions not in `v` and `rc` along those in `v`, each in ascending order.
pub open spec fn merge_coords(kc: Seq<int>, rc: Seq<int>, v: Seq<usize>, i: int) -> Seq<int>
    decreases i,
{
    if i <= 0 {
        Seq::empty()
    } else {
        let d = i - 1;
        merge_coords(kc, rc, v, d).push(
            if v.contains(d as usize) {
                rc[d - kept_count(v, d)]
            } else {
                kc[kept_count(v, d)]
            },
        )
    }
}

/// The values reduced into output element `o` when reducing over the ascending axes
/// `v` at once: the elements whose coordinates along the other dimensions are `o`'s
/// (row-major over them), with the coordinates along `v` running through all their
/// combinations in row-major order, so that value `f` sits at flat index `f` within
/// the reduced axes.
pub open spec fn multi_axis_values(x: &HostArray, v: Seq<usize>, o: int) -> Seq<i64> {
    let shape = x.layout.shape@;
    let red = permute_seq(shape, v);
    Seq::new(
        seq_prod(red) as nat,
        |f: int|
            elem_i64(
                x,
                merge_coords(unravel(o, drop_axes(shape, v)), unravel(f, red), v, shape.len() as int),
            ),
    )
}

/// `kept_count` never decreases.
proof fn lemma_kept_count_mono(v: Seq<usize>, i: int, j: int)
    requires
        i <= j,
    ensures
        kept_count(v, i) <= kept_count(v, j),
    decreases j - i,
{
    if i < j {
        lemma_kept_count_mono(v, i, j - 1);
    }
}

/// The dimensions kept below `i` are `kept_count(v, i)` many, and dimension `d` not in
/// `v` sits at position `kept_count(v, d)` among them.
proof fn lemma_drop_axes_position(shape: Seq<usize>, v: Seq<usize>, i: int)
    requires
        0 <= i <= shape.len(),
    ensures
        drop_axes_upto(shape, v, i).len() == kept_count(v, i),
        forall|d: int|
            0 <= d < i && !v.contains(d as usize) ==> #[trigger] drop_axes_upto(shape, v, i)[kept_count(
                v,
                d,
            )] == shape[d],
    decreases i,
{
    if i > 0 {
        lemma_drop_axes_position(shape, v, i - 1);
        let prev = drop_axes_upto(shape, v, i - 1);
        let cur = drop_axes_upto(shape, v, i);
        if v.contains((i - 1) as usize) {
            assert(cur =~= prev);
        } else {
            assert(cur =~= prev.push(shape[i - 1]));
        }
        assert forall|d: int| 0 <= d < i && !v.contains(d as usize) implies #[trigger] cur[kept_count(
            v,
            d,
        )] == shape[d] by {
            if d < i - 1 {
                lemma_kept_count_mono(v, d + 1, i - 1);
                lemma_kept_count_mono(v, 0, d);
                assert(kept_count(v, d + 1) == kept_count(v, d) + 1);
                assert(0 <= kept_count(v, d) < prev.len());
                if v.contains((i - 1) as usize) {
                    assert(cur == prev);
                } else {
                    assert(cur == prev.push(shape[i - 1]));
                    assert(prev.push(shape[i - 1])[kept_count(v, d)] == prev[kept_count(v, d)]);
                }
            }
        }
    }
}

/// The kept dimensions multiply (zeros counted as 1) to at most the whole shape's
/// zero-free product, and keeping them as 1 gives the same element count as dropping
/// them.
proof fn lemma_drop_axes_prod(shape: Seq<usize>, v: Seq<usize>, i: int)
    requires
        0 <= i <= shape.len(),
    ensures
        nonzero_prod(drop_axes_upto(shape, v, i)) <= nonzero_prod(shape.take(i)),
        nonzero_prod(keep_axes(shape, v).take(i)) <= nonzero_prod(shape.take(i)),
        seq_prod(drop_axes_upto(shape, v, i)) == seq_prod(keep_axes(shape, v).take(i)),
    decreases i,
{
    if i == 0 {
        assert(shape.take(0) =~= Seq::<usize>::empty());
        assert(keep_axes(shape, v).take(0) =~= Seq::<usize>::empty());
    } else {
        lemma_drop_axes_prod(shape, v, i - 1);
        let prev = drop_axes_upto(shape, v, i - 1);
        let x = shape[i - 1];
        let k = keep_axes(shape, v)[i - 1];
        let kp = keep_axes(shape, v).take(i - 1);
        let sp = shape.take(i - 1);
        assert(shape.take(i) =~= sp + seq![x]);
        assert(keep_axes(shape, v).take(i) =~= kp + seq![k]);
        crate::layout::lemma_nonzero_prod_concat(sp, seq![x]);
        crate::layout::lemma_nonzero_prod_concat(prev, seq![x]);
        crate::layout::lemma_seq_prod_concat(kp, seq![k]);
        crate::layout::lemma_seq_prod_concat(prev, seq![x]);
        crate::layout::lemma_nonzero_prod_pos(prev);
        crate::layout::lemma_nonzero_prod_pos(sp);
        let fx: int = if x == 0 {
            1
        } else {
            x as int
        };
        assert(seq_prod(seq![k]) == k) by {
            assert(seq![k].drop_first() =~= Seq::<usize>::empty());
            reveal_with_fuel(seq_prod, 2);
        }
        assert(seq_prod(seq![x]) == x) by {
            assert(seq![x].drop_first() =~= Seq::<usize>::empty());
            reveal_with_fuel(seq_prod, 2);
        }
        assert(nonzero_prod(seq![x]) == fx) by {
            assert(seq![x].drop_first() =~= Seq::<usize>::empty());
            reveal_with_fuel(nonzero_prod, 2);
        }
        assert(nonzero_prod(prev) * fx <= nonzero_prod(sp) * fx) by (nonlinear_arith)
            requires
                nonzero_prod(prev) <= nonzero_prod(sp),
                fx >= 1,
        ;
        let fk: int = if k == 0 {
            1
        } else {
            k as int
        };
        crate::layout::lemma_nonzero_prod_concat(kp, seq![k]);
        crate::layout::lemma_nonzero_prod_pos(kp);
        assert(nonzero_prod(seq![k]) == fk) by {
            assert(seq![k].drop_first() =~= Seq::<usize>::empty());
            reveal_with_fuel(nonzero_prod, 2);
        }
        assert(fk <= fx);
        assert(nonzero_prod(kp) * fk <= nonzero_prod(sp) * fx) by (nonlinear_arith)
            requires
                nonzero_prod(kp) <= nonzero_prod(sp),
                1 <= fk <= fx,
                nonzero_prod(kp) >= 1,
        ;
        if v.contains((i - 1) as usize) {
            assert(drop_axes_upto(shape, v, i) =~= prev);
            assert(nonzero_prod(prev) <= nonzero_prod(prev) * fx) by (nonlinear_arith)
                requires
                    nonzero_prod(prev) >= 1,
                    fx >= 1,
            ;
            assert(k == 1);
            assert(seq_prod(kp + seq![k]) == seq_prod(kp) * 1);
            assert(seq_prod(drop_axes_upto(shape, v, i)) == seq_prod(prev));
        } else {
            assert(drop_axes_upto(shape, v, i) =~= prev + seq![x]);
            assert(k == x);
            assert(seq_prod(drop_axes_upto(shape, v, i)) == seq_prod(prev) * x);
            assert(seq_prod(kp + seq![k]) == seq_prod(kp) * x);
        }
    }
}

/// Merges `kc` (coordinates along the dimensions not in `axes`) and `rc` (along those
/// in `axes`) into the coordinates of an element of `shape`.
fn merge_index(kc: &Vec<usize>, rc: &Vec<usize>, axes: &[usize], shape: &[usize]) -> (r: Vec<usize>)
    requires
        strictly_increasing(axes@),
        forall|j: int| 0 <= j < axes@.len() ==> #[trigger] axes@[j] < shape@.len(),
        valid_coords(int_coords(kc@), drop_axes(shape@, axes@)),
        valid_coords(int_coords(rc@), permute_seq(shape@, axes@)),
    ensures
        int_coords(r@) == merge_coords(int_coords(kc@), int_coords(rc@), axes@, shape@.len() as int),
        valid_coords(int_coords(r@), shape@),
{
    let n = shape.len();
    let ghost kci = int_coords(kc@);
    let ghost rci = int_coords(rc@);
    proof {
        lemma_drop_axes_position(shape@, axes@, n as int);
    }
    let mut r: Vec<usize> = Vec::new();
    let mut ik: usize = 0;
    let mut ir: usize = 0;
    let mut d: usize = 0;
    while d < n
        invariant
            n == shape@.len(),
            strictly_increasing(axes@),
            forall|j: int| 0 <= j < axes@.len() ==> #[trigger] axes@[j] < n,
            kci == int_coords(kc@),
            rci == int_coords(rc@),
            valid_coords(kci, drop_axes(shape@, axes@)),
            valid_coords(rci, permute_seq(shape@, axes@)),
            drop_axes(shape@, axes@).len() == kept_count(axes@, n as int),
            forall|e: int|
                0 <= e < n && !axes@.contains(e as usize) ==> #[trigger] drop_axes(shape@, axes@)[kept_count(
                    axes@,
                    e,
                )] == shape@[e],
            d <= n,
            ik == kept_count(axes@, d as int),
            ik + ir == d,
            ir <= axes@.len(),
            forall|j: int| 0 <= j < ir ==> #[trigger] axes@[j] < d,
            forall|j: int| ir <= j < axes@.len() ==> #[trigger] axes@[j] >= d,
            r@.len() == d,
            int_coords(r@) == merge_coords(kci, rci, axes@, d as int),
            forall|t: int| 0 <= t < d ==> 0 <= #[trigger] int_coords(r@)[t] < shape@[t],
        decreases n - d,
    {
        proof {
            lemma_kept_count_mono(axes@, d as int + 1, n as int);
        }
        if ir < axes.len() && axes[ir] == d {
            proof {
                assert(axes@.contains(d as usize));
                assert(permute_seq(shape@, axes@)[ir as int] == shape@[d as int]);
            }
            let ghost before = r@;
            r.push(rc[ir]);
            proof {
                assert(0 <= rci[ir as int] < permute_seq(shape@, axes@)[ir as int]);
                assert forall|t: int| 0 <= t < d + 1 implies 0 <= #[trigger] int_coords(r@)[t]
                    < shape@[t] by {
                    if t < d {
                        assert(r@[t] == before[t]);
                        assert(int_coords(before)[t] == before[t] as int);
                    }
                }
            }
            ir = ir + 1;
            proof {
                assert forall|j: int| ir <= j < axes@.len() implies #[trigger] axes@[j] >= d + 1 by {
                    assert(axes@[ir - 1] < axes@[j]);
                }
            }
        } else {
            proof {
                assert(!axes@.contains(d as usize)) by {
                    if axes@.contains(d as usize) {
                        let j = choose|j: int| 0 <= j < axes@.len() && axes@[j] == d;
                        if j > ir {
                            assert(axes@[ir as int] < axes@[j]);
                        }
                    }
                }
            }
            let ghost before = r@;
            r.push(kc[ik]);
            proof {
                assert(0 <= kci[ik as int] < drop_axes(shape@, axes@)[ik as int]);
                assert(drop_axes(shape@, axes@)[kept_count(axes@, d as int)] == shape@[d as int]);
                assert forall|t: int| 0 <= t < d + 1 implies 0 <= #[trigger] int_coords(r@)[t]
                    < shape@[t] by {
                    if t < d {
                        assert(r@[t] == before[t]);
                        assert(int_coords(before)[t] == before[t] as int);
                    }
                }
            }
            ik = ik + 1;
            proof {
                assert forall|j: int| ir <= j < axes@.len() implies #[trigger] axes@[j] >= d + 1 by {
                    if axes@[j] == d {
                        assert(axes@.contains(d as usize));
                    }
                }
            }
        }
        proof {
            assert(int_coords(r@) =~= merge_coords(kci, rci, axes@, d as int + 1));
        }
        d = d + 1;
    }
    r
}

/// Dropping the single axis `ax`, and counting the dimensions kept below `i`.
proof fn lemma_drop_one_axis(shape: Seq<usize>, ax: int, i: int)
    requires
        0 <= ax < shape.len() <= usize::MAX,
        0 <= i <= shape.len(),
    ensures
        drop_axes_upto(shape, seq![ax as usize], i) == (if i <= ax {
            shape.take(i)
        } else {
            remove_at(shape, ax).take(i - 1)
        }),
        kept_count(seq![ax as usize], i) == (if i <= ax {
            i
        } else {
            i - 1
        }),
    decreases i,
{
    if i > 0 {
        lemma_drop_one_axis(shape, ax, i - 1);
        let v = seq![ax as usize];
        assert(v.contains((i - 1) as usize) == (i - 1 == ax)) by {
            assert(v[0] == ax as usize);
            if v.contains((i - 1) as usize) {
                let j = choose|j: int| 0 <= j < v.len() && v[j] == (i - 1) as usize;
                assert(j == 0);
            }
        }
        if i - 1 < ax {
            assert(shape.take(i) =~= shape.take(i - 1) + seq![shape[i - 1]]);
        } else if i - 1 == ax {
            assert(remove_at(shape, ax).take(i - 1) =~= shape.take(i - 1));
            assert(shape.take(i - 1) + Seq::<usize>::empty() =~= shape.take(i - 1));
        } else {
            assert(remove_at(shape, ax).take(i - 1) =~= remove_at(shape, ax).take(i - 2) + seq![
                shape[i - 1],
            ]);
        }
    }
}

/// With the single axis `ax`, merging puts `rc[0]` at position `ax` of `kc`.
proof fn lemma_merge_one_axis(kc: Seq<int>, rc: Seq<int>, shape: Seq<usize>, ax: int, i: int)
    requires
        0 <= ax < shape.len() <= usize::MAX,
        kc.len() == shape.len() - 1,
        0 <= i <= shape.len(),
    ensures
        merge_coords(kc, rc, seq![ax as usize], i) == kc.insert(ax, rc[0]).take(i),
    decreases i,
{
    if i > 0 {
        lemma_merge_one_axis(kc, rc, shape, ax, i - 1);
        lemma_drop_one_axis(shape, ax, i - 1);
        let v = seq![ax as usize];
        assert(v.contains((i - 1) as usize) == (i - 1 == ax)) by {
            assert(v[0] == ax as usize);
            if v.contains((i - 1) as usize) {
                let j = choose|j: int| 0 <= j < v.len() && v[j] == (i - 1) as usize;
                assert(j == 0);
            }
        }
        assert(kc.insert(ax, rc[0]).take(i) =~= kc.insert(ax, rc[0]).take(i - 1).push(
            kc.insert(ax, rc[0])[i - 1],
        ));
    }
}

/// Over a single axis, the values of a multi-axis reduction are those of the
/// single-axis reduction along it: both paths reduce the same elements in the same
/// order.
pub proof fn lemma_multi_axis_single(x: &HostArray, ax: usize, o: int)
    requires
        ax < x.layout.shape@.len(),
        0 <= o,
    ensures
        multi_axis_values(x, seq![ax], o) == axis_values(x, Some(ax), o),
{
    let shape = x.layout.shape@;
    assert(shape.len() == x.layout.shape.len());
    let n = shape.len() as int;
    let v = seq![ax];
    let red = permute_seq(shape, v);
    let l = shape[ax as int];
    lemma_drop_one_axis(shape, ax as int, n);
    assert(remove_at(shape, ax as int).take(n - 1) =~= remove_at(shape, ax as int));
    assert(red =~= seq![l]);
    assert(seq_prod(red) == l) by {
        assert(red.drop_first() =~= Seq::<usize>::empty());
        reveal_with_fuel(seq_prod, 2);
    }
    let kc = unravel(o, remove_at(shape, ax as int));
    let mv = multi_axis_values(x, v, o);
    let av = axis_values(x, Some(ax), o);
    assert forall|f: int| 0 <= f < l implies mv[f] == av[f] by {
        let rc = unravel(f, red);
        assert(suffix_prod(red, 1) == 1) by {
            assert(red.subrange(1, 1) =~= Seq::<usize>::empty());
        }
        assert(rc[0] == f) by {
            vstd::arithmetic::div_mod::lemma_small_mod(f as nat, l as nat);
        }
        lemma_merge_one_axis(kc, rc, shape, ax as int, n);
        assert(kc.insert(ax as int, rc[0]).take(n) =~= kc.insert(ax as int, f));
    }
    assert(mv =~= av);
}

/// Listing every axis keeps nothing, and merging takes the reduced coordinates as
/// they are.
proof fn lemma_merge_all_axes(rc: Seq<int>, shape: Seq<usize>, i: int)
    requires
        shape.len() <= usize::MAX,
        rc.len() == shape.len(),
        0 <= i <= shape.len(),
    ensures
        kept_count(iota(shape.len()), i) == 0,
        drop_axes_upto(shape, iota(shape.len()), i) == Seq::<usize>::empty(),
        merge_coords(Seq::<int>::empty(), rc, iota(shape.len()), i) == rc.take(i),
    decreases i,
{
    if i > 0 {
        lemma_merge_all_axes(rc, shape, i - 1);
        let v = iota(shape.len());
        assert(v[i - 1] == (i - 1) as usize);
        assert(v.contains((i - 1) as usize));
        assert(rc.take(i) =~= rc.take(i - 1).push(rc[i - 1]));
        assert(drop_axes_upto(shape, v, i - 1) + Seq::<usize>::empty() =~= Seq::<usize>::empty());
    }
}

/// Over all axes listed in order, the values of a multi-axis reduction are all
/// elements in row-major order, as when reducing with no axis: the flat index within
/// all axes is the flat index into the array.
pub proof fn lemma_multi_axis_all(x: &HostArray)
    ensures
        multi_axis_values(x, iota(x.layout.shape@.len()), 0) == axis_values(x, None, 0),
{
    let shape = x.layout.shape@;
    let n = shape.len() as int;
    assert(n == x.layout.shape.len());
    let v = iota(shape.len());
    let red = permute_seq(shape, v);
    assert(red =~= shape);
    lemma_merge_all_axes(unravel(0, shape), shape, n);
    assert(drop_axes(shape, v) == Seq::<usize>::empty());
    assert(unravel(0, Seq::<usize>::empty()) =~= Seq::<int>::empty());
    let mv = multi_axis_values(x, v, 0);
    let av = axis_values(x, None, 0);
    assert forall|f: int| 0 <= f < mv.len() implies mv[f] == av[f] by {
        lemma_merge_all_axes(unravel(f, shape), shape, n);
        assert(unravel(f, shape).take(n) =~= unravel(f, shape));
    }
    assert(mv =~= av);
}

/// `argmax` (`Argmax`) or `argmin` (`Argmin`) of an integer array over the ascending
/// axes `axes` at once, as the CPU path computes it: for each combination of the other
/// coordinates (row-major), the flat index, row-major over the reduced axes, of the
/// first largest (smallest) element. The result is int64, with the reduced dimensions
/// dropped, or kept as 1 with `keepdims`.
pub fn arg_reduce_multi_int64(x: &HostArray, axes: &[usize], keepdims: bool, kernel: ReduceKernel) -> (r:
    HostArray)
    requires
        x.wf(),
        is_integer(x.dtype),
        nonzero_prod(x.layout.shape@) * 8 <= isize::MAX,
        kernel == ReduceKernel::Argmax || kernel == ReduceKernel::Argmin,
        axes@.len() >= 1,
        strictly_increasing(axes@),
        forall|j: int| 0 <= j < axes@.len() ==> #[trigger] axes@[j] < x.layout.shape@.len(),
        forall|j: int| 0 <= j < axes@.len() ==> #[trigger] x.layout.shape@[axes@[j] as int] > 0,
    ensures
        r.wf(),
        r.layout.shape@ == (if keepdims {
            keep_axes(x.layout.shape@, axes@)
        } else {
            drop_axes(x.layout.shape@, axes@)
        }),
        r.layout.spec_is_contiguous(),
        r.dtype == Dtype::Int64 && r.device == x.device,
        forall|o: int|
            0 <= o < seq_prod(drop_axes(x.layout.shape@, axes@)) ==> #[trigger] block(r.data@, o, 8)
                == vstd::bytes::spec_u64_to_le_bytes(
                (reduce_value(kernel, multi_axis_values(x, axes@, o)) as i64) as u64,
            ),
{
    let shape = x.layout.copy_shape();
    let n = shape.len();
    let kept = crate::reduction::multi_axis_out_shape(shape.as_slice(), axes, false);
    let out_shape = crate::reduction::multi_axis_out_shape(shape.as_slice(), axes, keepdims);
    let red = crate::reduction::pick_usize(shape.as_slice(), axes);
    let ghost oshape = out_shape@;
    proof {
        lemma_drop_axes_prod(shape@, axes@, n as int);
        assert(shape@.take(n as int) =~= shape@);
        assert(keep_axes(shape@, axes@).take(n as int) =~= keep_axes(shape@, axes@));
        crate::reduction::lemma_nonzero_prod_pick(shape@, axes@);
        crate::layout::lemma_prod_le_nonzero_prod(red@);
        crate::layout::lemma_prod_le_nonzero_prod(kept@);
        crate::layout::lemma_prod_le_nonzero_prod(oshape);
        crate::layout::lemma_nonzero_prod_pos(shape@);
        crate::layout::lemma_seq_prod_nonneg(kept@);
        assert(crate::layout::all_positive(red@)) by {
            assert forall|j: int| 0 <= j < red@.len() implies #[trigger] red@[j] > 0 by {
                assert(red@[j] == shape@[axes@[j] as int]);
            }
        }
        crate::layout::lemma_seq_prod_zero(red@);
        crate::layout::lemma_seq_prod_nonneg(red@);
        assert(nonzero_prod(oshape) <= nonzero_prod(shape@));
    }
    let len = crate::op_builder::shape_size(red.as_slice());
    let count = crate::op_builder::shape_size(kept.as_slice());
    let want_max = kernel == ReduceKernel::Argmax;
    let mut data: Vec<u8> = Vec::new();
    let mut o: usize = 0;
    while o < count
        invariant
            x.wf(),
            is_integer(x.dtype),
            kernel == ReduceKernel::Argmax || kernel == ReduceKernel::Argmin,
            want_max == (kernel == ReduceKernel::Argmax),
            shape@ == x.layout.shape@,
            n == shape@.len(),
            strictly_increasing(axes@),
            forall|j: int| 0 <= j < axes@.len() ==> #[trigger] axes@[j] < n,
            kept@ == drop_axes(shape@, axes@),
            red@ == permute_seq(shape@, axes@),
            crate::layout::all_positive(red@),
            len == seq_prod(red@),
            0 < len,
            len * 8 <= isize::MAX,
            count == seq_prod(kept@),
            count * 8 <= isize::MAX,
            o <= count,
            data@.len() == o * 8,
            forall|j: int|
                0 <= j < o ==> #[trigger] block(data@, j, 8) == vstd::bytes::spec_u64_to_le_bytes(
                    (reduce_value(kernel, multi_axis_values(x, axes@, j)) as i64) as u64,
                ),
        decreases count - o,
    {
        proof {
            crate::layout::lemma_all_positive(kept@);
        }
        let kc = unravel_index(o, kept.as_slice());
        let ghost vals = multi_axis_values(x, axes@, o as int);
        let rc0 = unravel_index(0, red.as_slice());
        let c0 = merge_index(&kc, &rc0, axes, shape.as_slice());
        let mut best_val = read_i64(x, c0.as_slice());
        let mut best_idx: usize = 0;
        let mut f: usize = 1;
        while f < len
            invariant
                x.wf(),
                is_integer(x.dtype),
                shape@ == x.layout.shape@,
                strictly_increasing(axes@),
                forall|j: int| 0 <= j < axes@.len() ==> #[trigger] axes@[j] < shape@.len(),
                kept@ == drop_axes(shape@, axes@),
                red@ == permute_seq(shape@, axes@),
                crate::layout::all_positive(red@),
                int_coords(kc@) == unravel(o as int, kept@),
                valid_coords(int_coords(kc@), kept@),
                vals == multi_axis_values(x, axes@, o as int),
                len == vals.len(),
                len * 8 <= isize::MAX,
                1 <= f <= len,
                best_idx == extreme_index(vals, f as int, want_max),
                best_idx < f,
                best_val == vals[best_idx as int],
            decreases len - f,
        {
            let rc = unravel_index(f, red.as_slice());
            let c = merge_index(&kc, &rc, axes, shape.as_slice());
            let val = read_i64(x, c.as_slice());
            if (want_max && val > best_val) || (!want_max && val < best_val) {
                best_idx = f;
                best_val = val;
            }
            f = f + 1;
        }
        proof {
            assert(vals.len() == len);
        }
        let bytes = vstd::bytes::u64_to_le_bytes((best_idx as i64) as u64);
        let ghost before = data@;
        let mut b: usize = 0;
        while b < 8
            invariant
                bytes@.len() == 8,
                b <= 8,
                data@.len() == o * 8 + b,
                data@.subrange(0, o * 8) == before,
                before.len() == o * 8,
                forall|t: int| 0 <= t < b ==> #[trigger] data@[o * 8 + t] == bytes@[t],
            decreases 8 - b,
        {
            data.push(bytes[b]);
            assert(data@.subrange(0, o * 8) =~= before);
            b = b + 1;
        }
        proof {
            crate::linalg::lemma_append_elem(before, data@, o as int, 8, bytes@);
        }
        o = o + 1;
    }
    proof {
        assert forall|kk: int| 0 <= kk <= oshape.len() implies #[trigger] crate::layout::suffix_prod(
            oshape,
            kk,
        ) <= isize::MAX by {
            crate::layout::lemma_nonzero_prod_suffix(oshape, kk);
            crate::layout::lemma_prod_le_nonzero_prod(oshape.subrange(kk, oshape.len() as int));
        }
    }
    let layout = Layout::from_shape(out_shape);
    let g = HostArray { layout, dtype: Dtype::Int64, device: x.device, data: Arc::new(data) };
    proof {
        lemma_row_major_wf(&g);
    }
    g
}

} // verus!
