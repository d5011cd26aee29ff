//! Axis arguments of the reductions, and how multi-axis reductions are composed
//! from single-axis ones.

use vstd::prelude::*;

use crate::array::{check_out, out_check, ArrayDesc};
use crate::dtype::{is_complex, Dtype};
use crate::error::OpError;
use crate::layout::{
    c_strides, lemma_nonzero_prod_pos, lemma_prod_le_nonzero_prod, nonzero_prod, permute_seq,
    seq_prod, Layout,
};
use crate::op_builder::{
    cast_supported, cumsum_op, cumsum_outcome, cumsum_plan_matches, is_index_reduction,
    lemma_float_reduction_keeps_dtype, reduce_out_dtype, reduction_axis,
    reduction_compute_dtype, reduction_outcome, shape_size, spec_reduction_compute_dtype,
    validate_cast_pair, CumsumPlan, ReduceKernel,
};

verus! {

/// A possibly negative axis counted from the end when negative.
pub open spec fn normalize_axis(ax: int, ndim: int) -> int {
    if ax < 0 {
        ax + ndim
    } else {
        ax
    }
}

/// Normalizes an optional axis: `None` stays `None` (reduce over everything);
/// `-ndim <= ax < ndim` becomes `0 <= ax < ndim`; anything else is `ShapeMismatch`.
pub fn resolve_axis(axis: Option<isize>, ndim: usize) -> (r: Result<Option<usize>, OpError>)
    ensures
        match axis {
            None => r == Ok::<Option<usize>, OpError>(None),
            Some(ax) => {
                let n = normalize_axis(ax as int, ndim as int);
                if 0 <= n < ndim {
                    r == Ok::<Option<usize>, OpError>(Some(n as usize))
                } else {
                    r == Err::<Option<usize>, OpError>(OpError::ShapeMismatch)
                }
            },
        },
{
    match axis {
        None => Ok(None),
        Some(ax) => {
            let a = ax as i128;
            let n: i128 = if a < 0 {
                a + ndim as i128
            } else {
                a
            };
            if n < 0 || n >= ndim as i128 {
                return Err(OpError::ShapeMismatch);
            }
            Ok(Some(n as usize))
        },
    }
}

/// Every listed axis is within `-ndim..ndim`.
pub open spec fn axes_in_bounds(axs: Seq<isize>, ndim: int) -> bool {
    forall|k: int|
        0 <= k < axs.len() ==> 0 <= #[trigger] normalize_axis(axs[k] as int, ndim) < ndim
}

/// No axis is listed twice (after normalization).
pub open spec fn axes_distinct(axs: Seq<isize>, ndim: int) -> bool {
    forall|k: int, l: int|
        0 <= k < l < axs.len() ==> normalize_axis(axs[k] as int, ndim) != normalize_axis(
            axs[l] as int,
            ndim,
        )
}

/// Strictly increasing.
pub open spec fn strictly_increasing(v: Seq<usize>) -> bool {
    forall|i: int, j: int| 0 <= i < j < v.len() ==> v[i] < v[j]
}

/// `v` holds exactly the normalized axes of `axs`.
pub open spec fn holds_exactly(v: Seq<usize>, axs: Seq<isize>, ndim: int) -> bool {
    &&& forall|k: int|
        0 <= k < axs.len() ==> v.contains(normalize_axis(#[trigger] axs[k] as int, ndim) as usize)
    &&& forall|j: int| 0 <= j < v.len() ==> names_axis(axs, ndim, #[trigger] v[j] as int)
}

/// Some entry of `axs` normalizes to `a`.
pub open spec fn names_axis(axs: Seq<isize>, ndim: int, a: int) -> bool {
    exists|k: int| 0 <= k < axs.len() && normalize_axis(axs[k] as int, ndim) == a
}

/// Normalizes a list of axes into the ascending list of distinct axes it names.
///
/// `None` gives the empty list (reduce over everything). An axis outside
/// `-ndim..ndim`, or an axis named twice, is `ShapeMismatch`.
pub fn resolve_axes(axis: Option<&[isize]>, ndim: usize) -> (r: Result<Vec<usize>, OpError>)
    ensures
        match axis {
            None => r matches Ok(v) && v@.len() == 0,
            Some(axs) => if axes_in_bounds(axs@, ndim as int) && axes_distinct(axs@, ndim as int) {
                r matches Ok(v) && strictly_increasing(v@) && holds_exactly(v@, axs@, ndim as int)
                    && forall|j: int| 0 <= j < v@.len() ==> #[trigger] v@[j] < ndim
            } else {
                r == Err::<Vec<usize>, OpError>(OpError::ShapeMismatch)
            },
        },
{
    let axs = match axis {
        None => {
            return Ok(Vec::new());
        },
        Some(axs) => axs,
    };
    let mut seen: Vec<bool> = Vec::new();
    let mut t: usize = 0;
    while t < ndim
        invariant
            axis == Some(axs),
            t <= ndim,
            seen@.len() == t,
            forall|j: int| 0 <= j < t ==> !seen@[j],
        decreases ndim - t,
    {
        seen.push(false);
        t = t + 1;
    }
    let mut i: usize = 0;
    while i < axs.len()
        invariant
            axis == Some(axs),
            seen@.len() == ndim,
            i <= axs@.len(),
            forall|k: int|
                0 <= k < i ==> 0 <= #[trigger] normalize_axis(axs@[k] as int, ndim as int) < ndim,
            forall|k: int, l: int|
                0 <= k < l < i ==> normalize_axis(axs@[k] as int, ndim as int) != normalize_axis(
                    axs@[l] as int,
                    ndim as int,
                ),
            forall|j: int|
                0 <= j < ndim ==> (#[trigger] seen@[j] <==> exists|k: int|
                    0 <= k < i && normalize_axis(axs@[k] as int, ndim as int) == j),
        decreases axs@.len() - i,
    {
        let a = axs[i] as i128;
        let n: i128 = if a < 0 {
            a + ndim as i128
        } else {
            a
        };
        assert(n == normalize_axis(axs@[i as int] as int, ndim as int));
        if n < 0 || n >= ndim as i128 {
            return Err(OpError::ShapeMismatch);
        }
        let nu = n as usize;
        if seen[nu] {
            let ghost k = choose|k: int|
                0 <= k < i && normalize_axis(axs@[k] as int, ndim as int) == nu;
            assert(!axes_distinct(axs@, ndim as int));
            return Err(OpError::ShapeMismatch);
        }
        seen.set(nu, true);
        proof {
            assert forall|j: int| 0 <= j < ndim implies (#[trigger] seen@[j] <==> exists|k: int|
                0 <= k < i + 1 && normalize_axis(axs@[k] as int, ndim as int) == j) by {
                if j == nu {
                    assert(normalize_axis(axs@[i as int] as int, ndim as int) == j);
                } else if exists|k: int|
                    0 <= k < i + 1 && normalize_axis(axs@[k] as int, ndim as int) == j {
                    let k = choose|k: int|
                        0 <= k < i + 1 && normalize_axis(axs@[k] as int, ndim as int) == j;
                    assert(k < i);
                }
            }
            assert forall|k: int, l: int| 0 <= k < l < i + 1 implies normalize_axis(
                axs@[k] as int,
                ndim as int,
            ) != normalize_axis(axs@[l] as int, ndim as int) by {
                if l == i && normalize_axis(axs@[k] as int, ndim as int) == nu {
                    assert(seen@[nu as int]);
                }
            }
        }
        i = i + 1;
    }
    let mut v: Vec<usize> = Vec::new();
    let mut j: usize = 0;
    while j < ndim
        invariant
            axis == Some(axs),
            seen@.len() == ndim,
            j <= ndim,
            forall|k: int|
                0 <= k < axs@.len() ==> 0 <= #[trigger] normalize_axis(axs@[k] as int, ndim as int)
                    < ndim,
            forall|k: int, l: int|
                0 <= k < l < axs@.len() ==> normalize_axis(axs@[k] as int, ndim as int)
                    != normalize_axis(axs@[l] as int, ndim as int),
            i == axs@.len(),
            forall|j2: int|
                0 <= j2 < ndim ==> (#[trigger] seen@[j2] <==> exists|k: int|
                    0 <= k < i && normalize_axis(axs@[k] as int, ndim as int) == j2),
            strictly_increasing(v@),
            forall|t2: int| 0 <= t2 < v@.len() ==> #[trigger] v@[t2] < j && seen@[v@[t2] as int],
            forall|j2: int| 0 <= j2 < j && seen@[j2] ==> v@.contains(j2 as usize),
        decreases ndim - j,
    {
        let ghost old_v = v@;
        if seen[j] {
            v.push(j);
            assert(v@[v@.len() - 1] == j);
        }
        proof {
            assert forall|j2: int| 0 <= j2 < j + 1 && seen@[j2] implies v@.contains(j2 as usize) by {
                if j2 == j {
                    assert(v@[v@.len() - 1] == j);
                } else {
                    assert(old_v.contains(j2 as usize));
                    let t2 = choose|t2: int| 0 <= t2 < old_v.len() && old_v[t2] == j2 as usize;
                    assert(v@[t2] == old_v[t2]);
                }
            }
        }
        j = j + 1;
    }
    proof {
        assert forall|k: int| 0 <= k < axs@.len() implies v@.contains(
            normalize_axis(#[trigger] axs@[k] as int, ndim as int) as usize,
        ) by {
            let nk = normalize_axis(axs@[k] as int, ndim as int);
            assert(seen@[nk]);
        }
        assert forall|t2: int| 0 <= t2 < v@.len() implies names_axis(
            axs@,
            ndim as int,
            #[trigger] v@[t2] as int,
        ) by {
            assert(seen@[v@[t2] as int]);
        }
    }
    Ok(v)
}


/// Two strictly increasing sequences with the same elements are equal.
pub proof fn lemma_sorted_unique(v: Seq<usize>, w: Seq<usize>)
    requires
        strictly_increasing(v),
        strictly_increasing(w),
        forall|x: usize| v.contains(x) <==> w.contains(x),
    ensures
        v == w,
    decreases v.len(),
{
    if v.len() == 0 {
        if w.len() > 0 {
            assert(w.contains(w[0]));
        }
        assert(v =~= w);
    } else {
        assert(v.contains(v[0]));
        assert(w.len() > 0);
        assert(w.contains(w[0]));
        let i = choose|i: int| 0 <= i < w.len() && w[i] == v[0];
        let j = choose|j: int| 0 <= j < v.len() && v[j] == w[0];
        assert(v[0] == w[0]) by {
            if i > 0 {
                assert(w[0] < w[i]);
            }
            if j > 0 {
                assert(v[0] < v[j]);
            }
        }
        let v1 = v.drop_first();
        let w1 = w.drop_first();
        assert forall|x: usize| v1.contains(x) <==> w1.contains(x) by {
            if v1.contains(x) {
                let a = choose|a: int| 0 <= a < v1.len() && v1[a] == x;
                assert(v[a + 1] == x);
                assert(w.contains(x));
                let b = choose|b: int| 0 <= b < w.len() && w[b] == x;
                if b == 0 {
                    assert(v[0] < v[a + 1]);
                }
                assert(w1[b - 1] == x);
            }
            if w1.contains(x) {
                let a = choose|a: int| 0 <= a < w1.len() && w1[a] == x;
                assert(w[a + 1] == x);
                assert(v.contains(x));
                let b = choose|b: int| 0 <= b < v.len() && v[b] == x;
                if b == 0 {
                    assert(w[0] < w[a + 1]);
                }
                assert(v1[b - 1] == x);
            }
        }
        lemma_sorted_unique(v1, w1);
        assert(v =~= w) by {
            assert forall|k: int| 0 <= k < v.len() implies v[k] == w[k] by {
                if k > 0 {
                    assert(v[k] == v1[k - 1]);
                    assert(w[k] == w1[k - 1]);
                }
            }
        }
    }
}

/// The axes below `j` that `axs` names, ascending.
pub open spec fn named_upto(axs: Seq<isize>, ndim: int, j: int) -> Seq<usize>
    decreases j,
{
    if j <= 0 {
        Seq::empty()
    } else {
        named_upto(axs, ndim, j - 1) + if names_axis(axs, ndim, j - 1) {
            seq![(j - 1) as usize]
        } else {
            Seq::<usize>::empty()
        }
    }
}

/// The ascending list of distinct axes (of `0..ndim`) that `axs` names.
pub open spec fn resolved(axs: Seq<isize>, ndim: int) -> Seq<usize> {
    named_upto(axs, ndim, ndim)
}

/// `named_upto` is ascending, below `j`, and holds exactly the named axes below `j`.
proof fn lemma_named_upto(axs: Seq<isize>, ndim: int, j: int)
    requires
        0 <= j <= usize::MAX,
    ensures
        strictly_increasing(named_upto(axs, ndim, j)),
        forall|t: int|
            0 <= t < named_upto(axs, ndim, j).len() ==> #[trigger] named_upto(axs, ndim, j)[t] < j
                && names_axis(axs, ndim, named_upto(axs, ndim, j)[t] as int),
        forall|x: int|
            0 <= x < j && names_axis(axs, ndim, x) ==> #[trigger] named_upto(axs, ndim, j).contains(
                x as usize,
            ),
    decreases j,
{
    if j > 0 {
        lemma_named_upto(axs, ndim, j - 1);
        let p = named_upto(axs, ndim, j - 1);
        let q = named_upto(axs, ndim, j);
        if names_axis(axs, ndim, j - 1) {
            assert(q == p.push((j - 1) as usize));
            assert forall|x: int| 0 <= x < j && names_axis(axs, ndim, x) implies #[trigger] q.contains(
                x as usize,
            ) by {
                if x == j - 1 {
                    assert(q[p.len() as int] == x as usize);
                } else {
                    assert(p.contains(x as usize));
                    let t = choose|t: int| 0 <= t < p.len() && p[t] == x as usize;
                    assert(q[t] == x as usize);
                }
            }
        } else {
            assert(q =~= p);
        }
    }
}

/// The resolved axis list of an `axis=` argument (`None`: all axes, as the empty
/// list), or `None` when it names an axis out of range or twice.
pub open spec fn axes_resolution(axis: Option<Seq<isize>>, ndim: int) -> Option<Seq<usize>> {
    match axis {
        None => Some(Seq::empty()),
        Some(axs) => if axes_in_bounds(axs, ndim) && axes_distinct(axs, ndim) {
            Some(resolved(axs, ndim))
        } else {
            None
        },
    }
}

pub open spec fn opt_view(axis: Option<&[isize]>) -> Option<Seq<isize>> {
    match axis {
        None => None,
        Some(a) => Some(a@),
    }
}

/// `holds_exactly` pins the list down: it is the resolved list.
proof fn lemma_resolved_is(v: Seq<usize>, axs: Seq<isize>, ndim: int)
    requires
        0 <= ndim <= usize::MAX,
        axes_in_bounds(axs, ndim),
        strictly_increasing(v),
        holds_exactly(v, axs, ndim),
    ensures
        resolved(axs, ndim) == v,
{
    let w = resolved(axs, ndim);
    lemma_named_upto(axs, ndim, ndim);
    assert forall|x: usize| v.contains(x) <==> w.contains(x) by {
        if v.contains(x) {
            let j = choose|j: int| 0 <= j < v.len() && v[j] == x;
            assert(names_axis(axs, ndim, v[j] as int));
            let k = choose|k: int| 0 <= k < axs.len() && normalize_axis(axs[k] as int, ndim) == v[j] as int;
            assert(0 <= normalize_axis(axs[k] as int, ndim) < ndim);
            assert(w.contains(x as int as usize));
        }
        if w.contains(x) {
            let j = choose|j: int| 0 <= j < w.len() && w[j] == x;
            assert(names_axis(axs, ndim, w[j] as int));
            let k = choose|k: int| 0 <= k < axs.len() && normalize_axis(axs[k] as int, ndim) == w[j] as int;
            assert(v.contains(normalize_axis(axs[k] as int, ndim) as usize));
        }
    }
    lemma_sorted_unique(v, w);
}

/// Two axis lists that name the same axes resolve to the same list.
proof fn lemma_resolution_by_named(axs1: Seq<isize>, axs2: Seq<isize>, ndim: int, j: int)
    requires
        forall|x: int| names_axis(axs1, ndim, x) <==> names_axis(axs2, ndim, x),
    ensures
        named_upto(axs1, ndim, j) == named_upto(axs2, ndim, j),
    decreases j,
{
    if j > 0 {
        lemma_resolution_by_named(axs1, axs2, ndim, j - 1);
        assert(names_axis(axs1, ndim, j - 1) == names_axis(axs2, ndim, j - 1));
    }
}

/// The order and the sign in which the axes of a reduction are written do not
/// matter: two valid axis lists (every axis in range, none named twice) that name the
/// same axes give the same outcome (result shape and dtype, or error) for every
/// value reduction and for argmax/argmin.
pub proof fn lemma_reduce_axis_order_irrelevant(
    a: &ArrayDesc,
    axs1: &[isize],
    axs2: &[isize],
    keepdims: bool,
    out: Option<&ArrayDesc>,
    kernel: ReduceKernel,
)
    requires
        axes_in_bounds(axs1@, a.shape().len() as int),
        axes_distinct(axs1@, a.shape().len() as int),
        axes_in_bounds(axs2@, a.shape().len() as int),
        axes_distinct(axs2@, a.shape().len() as int),
        forall|x: int|
            names_axis(axs1@, a.shape().len() as int, x) <==> names_axis(
                axs2@,
                a.shape().len() as int,
                x,
            ),
    ensures
        reduce_outcome(a, Some(axs1), keepdims, out, kernel) == reduce_outcome(
            a,
            Some(axs2),
            keepdims,
            out,
            kernel,
        ),
        arg_outcome(a, Some(axs1), keepdims, out, kernel) == arg_outcome(
            a,
            Some(axs2),
            keepdims,
            out,
            kernel,
        ),
{
    let n = a.shape().len() as int;
    lemma_resolution_by_named(axs1@, axs2@, n, n);
}

/// Axis `i` is reduced by a reduction over the resolved axes `v` (none listed: all).
pub open spec fn reduces_axis(v: Seq<usize>, i: int) -> bool {
    v.len() == 0 || v.contains(i as usize)
}

/// With `keepdims`, a reduction (value or argmax/argmin) that succeeds keeps the
/// input's rank: every reduced axis has size 1 and every other axis keeps its size.
pub proof fn lemma_keepdims_keeps_rank(
    a: &ArrayDesc,
    axis: Option<&[isize]>,
    out: Option<&ArrayDesc>,
    kernel: ReduceKernel,
)
    ensures
        reduce_outcome(a, axis, true, out, kernel) matches Ok((s, d)) ==> {
            let v = axes_resolution(opt_view(axis), a.shape().len() as int).unwrap();
            &&& s.len() == a.shape().len()
            &&& forall|i: int|
                0 <= i < s.len() ==> #[trigger] s[i] == if reduces_axis(v, i) {
                    1usize
                } else {
                    a.shape()[i]
                }
        },
        arg_outcome(a, axis, true, out, kernel) matches Ok((s, d)) ==> {
            let v = axes_resolution(opt_view(axis), a.shape().len() as int).unwrap();
            &&& s.len() == a.shape().len()
            &&& forall|i: int|
                0 <= i < s.len() ==> #[trigger] s[i] == if reduces_axis(v, i) {
                    1usize
                } else {
                    a.shape()[i]
                }
        },
{
    let n = a.shape().len() as int;
    assert(n == a.layout.shape.len());
    if let Some(axs) = opt_view(axis) {
        lemma_named_upto(axs, n, n);
    }
    if let Some(v) = axes_resolution(opt_view(axis), n) {
        if v.len() == 1 {
            assert forall|i: int| 0 <= i < n implies (#[trigger] v.contains(i as usize) <==> i == v[0]) by {
                if v.contains(i as usize) {
                    let t = choose|t: int| 0 <= t < v.len() && v[t] == i as usize;
                    assert(t == 0);
                }
                if i == v[0] {
                    assert(v[0] == i as usize);
                }
            }
        }
    }
}

/// Resolves an `axis=` argument to its ascending list of distinct axes.
pub fn resolve_axes_exact(axis: Option<&[isize]>, ndim: usize) -> (r: Result<Vec<usize>, OpError>)
    ensures
        match axes_resolution(opt_view(axis), ndim as int) {
            Some(v) => r matches Ok(w) && w@ == v && strictly_increasing(v) && forall|j: int|
                0 <= j < v.len() ==> #[trigger] v[j] < ndim,
            None => r == Err::<Vec<usize>, OpError>(OpError::ShapeMismatch),
        },
{
    let r = resolve_axes(axis, ndim);
    proof {
        match axis {
            None => {
                if let Ok(w) = &r {
                    assert(w@ =~= Seq::<usize>::empty());
                }
            },
            Some(axs) => {
                if let Ok(w) = &r {
                    if axes_in_bounds(axs@, ndim as int) {
                        lemma_resolved_is(w@, axs@, ndim as int);
                    }
                }
            },
        }
    }
    r
}

/// Dimensions `0..i` of `shape` that are not among `axes`.
pub open spec fn drop_axes_upto(shape: Seq<usize>, axes: Seq<usize>, i: int) -> Seq<usize>
    decreases i,
{
    if i <= 0 {
        Seq::empty()
    } else {
        drop_axes_upto(shape, axes, i - 1) + (if axes.contains((i - 1) as usize) {
            Seq::empty()
        } else {
            seq![shape[i - 1]]
        })
    }
}

/// `shape` without the dimensions listed in `axes`.
pub open spec fn drop_axes(shape: Seq<usize>, axes: Seq<usize>) -> Seq<usize> {
    drop_axes_upto(shape, axes, shape.len() as int)
}

/// `shape` with the dimensions listed in `axes` set to 1.
pub open spec fn keep_axes(shape: Seq<usize>, axes: Seq<usize>) -> Seq<usize> {
    Seq::new(shape.len(), |i: int| if axes.contains(i as usize) { 1usize } else { shape[i] })
}

/// Whether `x` is in `v`.
pub fn contains_usize(v: &[usize], x: usize) -> (r: bool)
    ensures
        r == v@.contains(x),
{
    let mut i: usize = 0;
    while i < v.len()
        invariant
            i <= v.len(),
            forall|j: int| 0 <= j < i ==> v@[j] != x,
        decreases v.len() - i,
    {
        if v[i] == x {
            assert(v@[i as int] == x);
            return true;
        }
        i = i + 1;
    }
    false
}

/// `shape` with the listed dimensions dropped, or set to 1 with `keepdims`.
pub fn multi_axis_out_shape(shape: &[usize], axes: &[usize], keepdims: bool) -> (r: Vec<usize>)
    ensures
        r@ == (if keepdims {
            keep_axes(shape@, axes@)
        } else {
            drop_axes(shape@, axes@)
        }),
{
    let mut r: Vec<usize> = Vec::new();
    let mut i: usize = 0;
    while i < shape.len()
        invariant
            i <= shape.len(),
            r@ == (if keepdims {
                keep_axes(shape@, axes@).take(i as int)
            } else {
                drop_axes_upto(shape@, axes@, i as int)
            }),
        decreases shape.len() - i,
    {
        let c = contains_usize(axes, i);
        if keepdims {
            if c {
                r.push(1);
            } else {
                r.push(shape[i]);
            }
            assert(r@ =~= keep_axes(shape@, axes@).take(i as int + 1));
        } else {
            if !c {
                r.push(shape[i]);
            }
            assert(r@ =~= drop_axes_upto(shape@, axes@, i as int + 1));
        }
        i = i + 1;
    }
    if keepdims {
        assert(r@ =~= keep_axes(shape@, axes@));
    }
    r
}

/// How a reduction over a list of axes is carried out.
pub struct MultiReducePlan {
    /// The reduced axes, ascending.
    pub axes: Vec<usize>,
    pub out_shape: Vec<usize>,
    pub out_dtype: Dtype,
    /// With several axes and no `keepdims`: the positions removed one after another
    /// from the kept-dims result (each later position shifts down by one per removal).
    pub squeeze: Vec<usize>,
}

/// Outcome of `sum`/`prod`/`max`/`min`/`mean` over resolved axes `v`: no axis means a
/// global reduction, one axis a single-axis reduction; several axes are reduced one
/// after another (so the checks of the first step decide), `out=` is not supported
/// then, and the reduced axes are dropped or kept as size 1.
pub open spec fn multi_reduce_outcome(
    a: &ArrayDesc,
    v: Seq<usize>,
    keepdims: bool,
    out: Option<&ArrayDesc>,
    kernel: ReduceKernel,
) -> Result<(Seq<usize>, Dtype), OpError> {
    if v.len() == 0 {
        reduction_outcome(a, None, keepdims, out, kernel)
    } else if v.len() == 1 {
        reduction_outcome(a, Some(v[0]), keepdims, out, kernel)
    } else if out is Some {
        Err(OpError::ShapeMismatch)
    } else {
        match reduction_outcome(a, Some(v[0]), true, None, kernel) {
            Err(e) => Err(e),
            Ok(_) => Ok(
                (
                    if keepdims {
                        keep_axes(a.shape(), v)
                    } else {
                        drop_axes(a.shape(), v)
                    },
                    reduce_out_dtype(a.dtype, kernel),
                ),
            ),
        }
    }
}

/// Outcome of a value reduction given its `axis=` argument.
pub open spec fn reduce_outcome(
    a: &ArrayDesc,
    axis: Option<&[isize]>,
    keepdims: bool,
    out: Option<&ArrayDesc>,
    kernel: ReduceKernel,
) -> Result<(Seq<usize>, Dtype), OpError> {
    match axes_resolution(opt_view(axis), a.shape().len() as int) {
        None => Err(OpError::ShapeMismatch),
        Some(v) => multi_reduce_outcome(a, v, keepdims, out, kernel),
    }
}

/// Plans a value reduction (`sum`/`prod`/`max`/`min`/`mean`) over an `axis=` list.
fn reduce_multi(
    a: &ArrayDesc,
    axis: Option<&[isize]>,
    keepdims: bool,
    out: Option<&ArrayDesc>,
    kernel: ReduceKernel,
) -> (r: Result<MultiReducePlan, OpError>)
    requires
        a.layout.wf(),
        nonzero_prod(a.shape()) <= usize::MAX,
    ensures
        reduce_plan_matches(r, a, axis, keepdims, out, kernel),
{
    let axes = match resolve_axes_exact(axis, a.layout.shape.len()) {
        Ok(v) => v,
        Err(e) => {
            return Err(e);
        },
    };
    let n = axes.len();
    if n == 0 {
        return match reduction_axis(a, None, keepdims, out, kernel) {
            Ok(p) => Ok(
                MultiReducePlan {
                    axes,
                    out_shape: p.out_shape,
                    out_dtype: p.out_dtype,
                    squeeze: Vec::new(),
                },
            ),
            Err(e) => Err(e),
        };
    }
    if n == 1 {
        return match reduction_axis(a, Some(axes[0]), keepdims, out, kernel) {
            Ok(p) => Ok(
                MultiReducePlan {
                    axes,
                    out_shape: p.out_shape,
                    out_dtype: p.out_dtype,
                    squeeze: Vec::new(),
                },
            ),
            Err(e) => Err(e),
        };
    }
    if out.is_some() {
        return Err(OpError::ShapeMismatch);
    }
    let first = match reduction_axis(a, Some(axes[0]), true, None, kernel) {
        Ok(p) => p,
        Err(e) => {
            return Err(e);
        },
    };
    let out_shape = multi_axis_out_shape(a.layout.shape.as_slice(), axes.as_slice(), keepdims);
    let mut squeeze: Vec<usize> = Vec::new();
    if !keepdims {
        let mut i: usize = 0;
        while i < n
            invariant
                n == axes@.len(),
                strictly_increasing(axes@),
                i <= n,
                squeeze@.len() == i,
                forall|t: int| 0 <= t < i ==> #[trigger] squeeze@[t] == axes@[t] - t,
            decreases n - i,
        {
            proof {
                lemma_increasing_ge_index(axes@, i as int);
            }
            squeeze.push(axes[i] - i);
            i = i + 1;
        }
    }
    assert(squeeze@ =~= squeeze_positions(axes@, keepdims));
    Ok(MultiReducePlan { axes, out_shape, out_dtype: first.out_dtype, squeeze })
}

/// Entry `i` of a strictly increasing list of naturals is at least `i`.
proof fn lemma_increasing_ge_index(v: Seq<usize>, i: int)
    requires
        strictly_increasing(v),
        0 <= i < v.len(),
    ensures
        v[i] >= i,
    decreases i,
{
    if i > 0 {
        lemma_increasing_ge_index(v, i - 1);
    }
}


/// `sum(a, axis, keepdims, out)`: sum over the listed axes (all axes when `None`).
/// Integer inputs accumulate and return int64; floats and complex keep their dtype.
pub fn sum(a: &ArrayDesc, axis: Option<&[isize]>, keepdims: bool, out: Option<&ArrayDesc>) -> (r:
    Result<MultiReducePlan, OpError>)
    requires
        a.layout.wf(),
        nonzero_prod(a.shape()) <= usize::MAX,
    ensures
        reduce_plan_matches(r, a, axis, keepdims, out, ReduceKernel::Sum),
{
    reduce_multi(a, axis, keepdims, out, ReduceKernel::Sum)
}

/// `prod(a, axis, keepdims, out)`: product over the listed axes.
/// Integer inputs accumulate and return int64; floats and complex keep their dtype.
pub fn prod(a: &ArrayDesc, axis: Option<&[isize]>, keepdims: bool, out: Option<&ArrayDesc>) -> (r:
    Result<MultiReducePlan, OpError>)
    requires
        a.layout.wf(),
        nonzero_prod(a.shape()) <= usize::MAX,
    ensures
        reduce_plan_matches(r, a, axis, keepdims, out, ReduceKernel::Prod),
{
    reduce_multi(a, axis, keepdims, out, ReduceKernel::Prod)
}

/// `max(a, axis, keepdims, out)`: maximum over the listed axes (integers compare as
/// int64 and return int64; complex input is refused).
pub fn max(a: &ArrayDesc, axis: Option<&[isize]>, keepdims: bool, out: Option<&ArrayDesc>) -> (r:
    Result<MultiReducePlan, OpError>)
    requires
        a.layout.wf(),
        nonzero_prod(a.shape()) <= usize::MAX,
    ensures
        reduce_plan_matches(r, a, axis, keepdims, out, ReduceKernel::Max),
{
    reduce_multi(a, axis, keepdims, out, ReduceKernel::Max)
}

/// `min(a, axis, keepdims, out)`: minimum over the listed axes (integers compare as
/// int64 and return int64; complex input is refused).
pub fn min(a: &ArrayDesc, axis: Option<&[isize]>, keepdims: bool, out: Option<&ArrayDesc>) -> (r:
    Result<MultiReducePlan, OpError>)
    requires
        a.layout.wf(),
        nonzero_prod(a.shape()) <= usize::MAX,
    ensures
        reduce_plan_matches(r, a, axis, keepdims, out, ReduceKernel::Min),
{
    reduce_multi(a, axis, keepdims, out, ReduceKernel::Min)
}

/// `mean(a, axis, keepdims, out)`: mean over the listed axes. Integer inputs
/// accumulate and return float64; float32/float64 keep their dtype.
pub fn mean(a: &ArrayDesc, axis: Option<&[isize]>, keepdims: bool, out: Option<&ArrayDesc>) -> (r:
    Result<MultiReducePlan, OpError>)
    requires
        a.layout.wf(),
        nonzero_prod(a.shape()) <= usize::MAX,
    ensures
        reduce_plan_matches(r, a, axis, keepdims, out, ReduceKernel::Mean),
{
    reduce_multi(a, axis, keepdims, out, ReduceKernel::Mean)
}

/// `r` is what a value reduction with these arguments gives: the plan for the
/// successful outcome, or its error.
pub open spec fn reduce_plan_matches(
    r: Result<MultiReducePlan, OpError>,
    a: &ArrayDesc,
    axis: Option<&[isize]>,
    keepdims: bool,
    out: Option<&ArrayDesc>,
    kernel: ReduceKernel,
) -> bool {
    match reduce_outcome(a, axis, keepdims, out, kernel) {
        Ok((shape, d)) => r matches Ok(p) && p.out_shape@ == shape && p.out_dtype == d && Some(p.axes@)
            == axes_resolution(opt_view(axis), a.shape().len() as int) && p.squeeze@ == squeeze_positions(
            p.axes@,
            keepdims,
        ),
        Err(e) => r == Err::<MultiReducePlan, OpError>(e),
    }
}

/// The positions removed one after another from the kept-dims result of a reduction
/// over several axes `v` without `keepdims`: each later axis shifts down by one per
/// earlier removal. None otherwise.
pub open spec fn squeeze_positions(v: Seq<usize>, keepdims: bool) -> Seq<usize> {
    if v.len() >= 2 && !keepdims {
        Seq::new(v.len(), |t: int| (v[t] - t) as usize)
    } else {
        Seq::empty()
    }
}


// ── argmax / argmin ────────────────────────────────────────────

/// `0, 1, .., n-1`.
pub open spec fn iota(n: nat) -> Seq<usize> {
    Seq::new(n, |i: int| i as usize)
}

/// The dimension order used by a multi-axis argmax/argmin: the kept dimensions in
/// their order, then the reduced ones (ascending).
pub open spec fn arg_perm(n: nat, v: Seq<usize>) -> Seq<usize> {
    drop_axes(iota(n), v) + v
}

/// The shape the kernel sees: the kept dimensions, then all reduced dimensions merged
/// into one.
pub open spec fn merged_shape(shape: Seq<usize>, v: Seq<usize>) -> Seq<usize> {
    drop_axes(shape, v).push(seq_prod(permute_seq(shape, v)) as usize)
}

/// The transposed view `l` reordered by `perm` is row-major with offset 0, so it is
/// merged in place rather than copied.
pub open spec fn permuted_contiguous(l: Layout, perm: Seq<usize>) -> bool {
    l.offset == 0 && permute_seq(l.istrides(), perm) == c_strides(permute_seq(l.shape@, perm))
}

/// Outcome of argmax/argmin over two or more axes `v`: the reduced axes are moved to
/// the end, merged into one and reduced there; the index returned is the flat index
/// within the reduced axes. `out=` is checked against the merged result (the kept
/// dimensions, then a 1 with `keepdims`), must be int64 on the input's device, and
/// must not be the buffer read in place; with `keepdims` it must also be row-major,
/// since the result is then reshaped back.
pub open spec fn arg_multi_outcome(
    a: &ArrayDesc,
    v: Seq<usize>,
    keepdims: bool,
    out: Option<&ArrayDesc>,
    kernel: ReduceKernel,
) -> Result<(Seq<usize>, Dtype), OpError> {
    let kept = drop_axes(a.shape(), v);
    let rshape = if keepdims {
        kept.push(1usize)
    } else {
        kept
    };
    let compute = spec_reduction_compute_dtype(a.dtype, kernel);
    if is_complex(a.dtype) {
        Err(OpError::DtypeUnsupported)
    } else {
        match out_check(out, rshape, Dtype::Int64, a.device) {
            Some(e) => Err(e),
            None => if a.dtype != compute && !cast_supported(a.dtype, compute) {
                Err(OpError::DtypeUnsupported)
            } else if out matches Some(o) && o.buffer == a.buffer && permuted_contiguous(
                a.layout,
                arg_perm(a.shape().len(), v),
            ) && a.dtype == compute {
                Err(OpError::AliasDetected)
            } else if keepdims && (out matches Some(o) && !o.layout.spec_is_contiguous()) {
                Err(OpError::ShapeMismatch)
            } else {
                Ok(
                    (
                        if keepdims {
                            keep_axes(a.shape(), v)
                        } else {
                            kept
                        },
                        Dtype::Int64,
                    ),
                )
            },
        }
    }
}

/// Outcome of argmax/argmin given its `axis=` argument.
pub open spec fn arg_outcome(
    a: &ArrayDesc,
    axis: Option<&[isize]>,
    keepdims: bool,
    out: Option<&ArrayDesc>,
    kernel: ReduceKernel,
) -> Result<(Seq<usize>, Dtype), OpError> {
    match axes_resolution(opt_view(axis), a.shape().len() as int) {
        None => Err(OpError::ShapeMismatch),
        Some(v) => if v.len() <= 1 {
            reduction_outcome(a, if v.len() == 0 { None } else { Some(v[0]) }, keepdims, out, kernel)
        } else {
            arg_multi_outcome(a, v, keepdims, out, kernel)
        },
    }
}

/// How an argmax/argmin is run: the input is reordered by `perm` (only for several
/// axes; empty otherwise), copied first when `materialize`, seen as `kernel_shape`,
/// and reduced along `kernel_axis` of length `axis_len`.
pub struct ArgReducePlan {
    pub axes: Vec<usize>,
    pub perm: Vec<usize>,
    pub materialize: bool,
    pub kernel_shape: Vec<usize>,
    pub kernel_axis: usize,
    pub axis_len: usize,
    pub out_shape: Vec<usize>,
    pub out_dtype: Dtype,
}

/// Entries of `drop_axes_upto(iota(n), v, i)` are below `i`, ascending.
proof fn lemma_kept_indices(n: nat, v: Seq<usize>, i: int)
    requires
        0 <= i <= n,
    ensures
        forall|j: int|
            0 <= j < drop_axes_upto(iota(n), v, i).len() ==> #[trigger] drop_axes_upto(
                iota(n),
                v,
                i,
            )[j] < i,
    decreases i,
{
    if i > 0 {
        lemma_kept_indices(n, v, i - 1);
        let prev = drop_axes_upto(iota(n), v, i - 1);
        let cur = drop_axes_upto(iota(n), v, i);
        assert(iota(n)[i - 1] == (i - 1) as usize);
        assert forall|j: int| 0 <= j < cur.len() implies #[trigger] cur[j] < i by {
            if j < prev.len() {
                assert(cur[j] == prev[j]);
            }
        }
    }
}

/// Dimensions picked by strictly increasing positions multiply (zeros counted as 1) to
/// at most the zero-free product of the whole shape.
pub(crate) proof fn lemma_nonzero_prod_pick(s: Seq<usize>, v: Seq<usize>)
    requires
        strictly_increasing(v),
        forall|j: int| 0 <= j < v.len() ==> #[trigger] v[j] < s.len(),
    ensures
        nonzero_prod(permute_seq(s, v)) <= nonzero_prod(s),
    decreases s.len(),
{
    let picked = permute_seq(s, v);
    if v.len() == 0 {
        assert(picked.len() == 0);
        lemma_nonzero_prod_pos(s);
    } else {
        let t = s.drop_first();
        lemma_nonzero_prod_pos(t);
        let f: int = if s[0] == 0 {
            1
        } else {
            s[0] as int
        };
        if v[0] == 0 {
            let w = Seq::new((v.len() - 1) as nat, |j: int| (v[j + 1] - 1) as usize);
            assert forall|j: int| 0 <= j < w.len() implies #[trigger] w[j] < t.len() by {
                assert(v[0] < v[j + 1]);
            }
            assert(strictly_increasing(w)) by {
                assert forall|i: int, j: int| 0 <= i < j < w.len() implies w[i] < w[j] by {
                    assert(v[i + 1] < v[j + 1]);
                    assert(v[0] < v[i + 1]);
                }
            }
            lemma_nonzero_prod_pick(t, w);
            assert(picked.drop_first() =~= permute_seq(t, w)) by {
                assert forall|j: int| 0 <= j < w.len() implies picked.drop_first()[j] == permute_seq(
                    t,
                    w,
                )[j] by {
                    assert(v[0] < v[j + 1]);
                }
            }
            let a = nonzero_prod(permute_seq(t, w));
            let b = nonzero_prod(t);
            assert(f * a <= f * b) by (nonlinear_arith)
                requires
                    f >= 1,
                    a <= b,
            ;
        } else {
            let w = Seq::new(v.len(), |j: int| (v[j] - 1) as usize);
            assert forall|j: int| 0 <= j < w.len() implies #[trigger] w[j] < t.len() && v[j] >= 1 by {
                if j > 0 {
                    assert(v[0] < v[j]);
                }
            }
            assert(strictly_increasing(w)) by {
                assert forall|i: int, j: int| 0 <= i < j < w.len() implies w[i] < w[j] by {
                    assert(v[i] < v[j]);
                    if i > 0 {
                        assert(v[0] < v[i]);
                    }
                    assert(w[i] < t.len() && v[i] >= 1);
                }
            }
            lemma_nonzero_prod_pick(t, w);
            assert(picked =~= permute_seq(t, w)) by {
                assert forall|j: int| 0 <= j < w.len() implies picked[j] == permute_seq(t, w)[j] by {
                    assert(w[j] < t.len() && v[j] >= 1);
                }
            }
            let b = nonzero_prod(t);
            assert(b <= f * b) by (nonlinear_arith)
                requires
                    f >= 1,
                    b >= 1,
            ;
        }
    }
}

/// Builds `arg_perm(n, axes)`.
fn build_arg_perm(n: usize, axes: &[usize]) -> (r: Vec<usize>)
    requires
        forall|j: int| 0 <= j < axes@.len() ==> #[trigger] axes@[j] < n,
    ensures
        r@ == arg_perm(n as nat, axes@),
        forall|j: int| 0 <= j < r@.len() ==> #[trigger] r@[j] < n,
{
    let mut idx: Vec<usize> = Vec::new();
    let mut k: usize = 0;
    while k < n
        invariant
            k <= n,
            idx@ == iota(n as nat).take(k as int),
        decreases n - k,
    {
        idx.push(k);
        assert(idx@ =~= iota(n as nat).take(k as int + 1));
        k = k + 1;
    }
    assert(idx@ =~= iota(n as nat));
    let mut r = multi_axis_out_shape(idx.as_slice(), axes, false);
    proof {
        lemma_kept_indices(n as nat, axes@, n as int);
    }
    let ghost kept = r@;
    let mut i: usize = 0;
    while i < axes.len()
        invariant
            forall|j: int| 0 <= j < axes@.len() ==> #[trigger] axes@[j] < n,
            forall|j: int| 0 <= j < kept.len() ==> #[trigger] kept[j] < n,
            i <= axes.len(),
            r@ == kept + axes@.take(i as int),
        decreases axes.len() - i,
    {
        r.push(axes[i]);
        assert(r@ =~= kept + axes@.take(i as int + 1));
        i = i + 1;
    }
    assert(axes@.take(axes@.len() as int) =~= axes@);
    assert forall|j: int| 0 <= j < r@.len() implies #[trigger] r@[j] < n by {
        if j >= kept.len() {
            assert(r@[j] == axes@[j - kept.len()]);
        }
    }
    r
}

/// Picks `s[p[0]], s[p[1]], ..`.
pub(crate) fn pick_usize(s: &[usize], p: &[usize]) -> (r: Vec<usize>)
    requires
        forall|j: int| 0 <= j < p@.len() ==> #[trigger] p@[j] < s@.len(),
    ensures
        r@ == permute_seq(s@, p@),
{
    let mut r: Vec<usize> = Vec::new();
    let mut i: usize = 0;
    while i < p.len()
        invariant
            forall|j: int| 0 <= j < p@.len() ==> #[trigger] p@[j] < s@.len(),
            i <= p.len(),
            r@ == permute_seq(s@, p@.take(i as int)),
        decreases p.len() - i,
    {
        r.push(s[p[i]]);
        assert(p@.take(i as int + 1) =~= p@.take(i as int).push(p@[i as int]));
        assert(r@ =~= permute_seq(s@, p@.take(i as int + 1)));
        i = i + 1;
    }
    assert(p@.take(p@.len() as int) =~= p@);
    r
}

/// Picks `s[p[0]], s[p[1]], ..`.
fn pick_isize(s: &[isize], p: &[usize]) -> (r: Vec<isize>)
    requires
        forall|j: int| 0 <= j < p@.len() ==> #[trigger] p@[j] < s@.len(),
    ensures
        r@ == permute_seq(s@, p@),
{
    let mut r: Vec<isize> = Vec::new();
    let mut i: usize = 0;
    while i < p.len()
        invariant
            forall|j: int| 0 <= j < p@.len() ==> #[trigger] p@[j] < s@.len(),
            i <= p.len(),
            r@ == permute_seq(s@, p@.take(i as int)),
        decreases p.len() - i,
    {
        r.push(s[p[i]]);
        assert(p@.take(i as int + 1) =~= p@.take(i as int).push(p@[i as int]));
        assert(r@ =~= permute_seq(s@, p@.take(i as int + 1)));
        i = i + 1;
    }
    assert(p@.take(p@.len() as int) =~= p@);
    r
}

/// The multi-axis part of argmax/argmin (two or more resolved axes).
fn arg_reduce_axes(
    a: &ArrayDesc,
    axes: Vec<usize>,
    keepdims: bool,
    out: Option<&ArrayDesc>,
    kernel: ReduceKernel,
) -> (r: Result<ArgReducePlan, OpError>)
    requires
        a.layout.wf(),
        out matches Some(o) ==> o.layout.wf(),
        nonzero_prod(a.shape()) <= usize::MAX,
        kernel == ReduceKernel::Argmax || kernel == ReduceKernel::Argmin,
        axes@.len() >= 2,
        strictly_increasing(axes@),
        forall|j: int| 0 <= j < axes@.len() ==> #[trigger] axes@[j] < a.shape().len(),
    ensures
        match arg_multi_outcome(a, axes@, keepdims, out, kernel) {
            Ok((shape, d)) => r matches Ok(p) && {
                &&& p.out_shape@ == shape
                &&& p.out_dtype == d
                &&& p.axes@ == axes@
                &&& p.perm@ == arg_perm(a.shape().len(), axes@)
                &&& p.materialize == !permuted_contiguous(a.layout, p.perm@)
                &&& p.kernel_shape@ == merged_shape(a.shape(), axes@)
                &&& p.kernel_axis == p.kernel_shape@.len() - 1
                &&& p.axis_len == seq_prod(permute_seq(a.shape(), axes@))
            },
            Err(e) => r == Err::<ArgReducePlan, OpError>(e),
        },
{
    if a.dtype.is_complex() {
        return Err(OpError::DtypeUnsupported);
    }
    let shape = a.layout.copy_shape();
    let kept = multi_axis_out_shape(shape.as_slice(), axes.as_slice(), false);
    let mut rshape = multi_axis_out_shape(shape.as_slice(), axes.as_slice(), false);
    if keepdims {
        rshape.push(1);
    }
    match check_out(out, rshape.as_slice(), Dtype::Int64, a.device) {
        Ok(()) => {},
        Err(e) => {
            return Err(e);
        },
    }
    let compute = reduction_compute_dtype(a.dtype, kernel);
    if a.dtype != compute {
        match validate_cast_pair(a.dtype, compute) {
            Ok(()) => {},
            Err(e) => {
                return Err(e);
            },
        }
    }
    let perm = build_arg_perm(shape.len(), axes.as_slice());
    let t_shape = pick_usize(shape.as_slice(), perm.as_slice());
    let t_strides = pick_isize(a.layout.strides.as_slice(), perm.as_slice());
    let t = Layout { shape: t_shape, strides: t_strides, offset: a.layout.offset };
    let in_place = t.is_contiguous();
    proof {
        assert(t.istrides() =~= permute_seq(a.layout.istrides(), perm@));
    }
    if let Some(o) = out {
        if o.buffer == a.buffer && in_place && a.dtype == compute {
            return Err(OpError::AliasDetected);
        }
        if keepdims && !o.layout.is_contiguous() {
            return Err(OpError::ShapeMismatch);
        }
    }
    let reduced = pick_usize(shape.as_slice(), axes.as_slice());
    proof {
        lemma_nonzero_prod_pick(shape@, axes@);
        lemma_prod_le_nonzero_prod(reduced@);
    }
    let axis_len = shape_size(reduced.as_slice());
    let mut kernel_shape = kept;
    kernel_shape.push(axis_len);
    let kernel_axis = kernel_shape.len() - 1;
    let out_shape = multi_axis_out_shape(shape.as_slice(), axes.as_slice(), keepdims);
    Ok(
        ArgReducePlan {
            axes,
            perm,
            materialize: !in_place,
            kernel_shape,
            kernel_axis,
            axis_len,
            out_shape,
            out_dtype: Dtype::Int64,
        },
    )
}

/// Plans an argmax/argmin over an `axis=` list.
fn arg_reduce_multi(
    a: &ArrayDesc,
    axis: Option<&[isize]>,
    keepdims: bool,
    out: Option<&ArrayDesc>,
    kernel: ReduceKernel,
) -> (r: Result<ArgReducePlan, OpError>)
    requires
        a.layout.wf(),
        out matches Some(o) ==> o.layout.wf(),
        nonzero_prod(a.shape()) <= usize::MAX,
        kernel == ReduceKernel::Argmax || kernel == ReduceKernel::Argmin,
    ensures
        arg_plan_matches(r, a, axis, keepdims, out, kernel),
{
    let axes = match resolve_axes_exact(axis, a.layout.shape.len()) {
        Ok(v) => v,
        Err(e) => {
            return Err(e);
        },
    };
    let n = axes.len();
    if n >= 2 {
        return arg_reduce_axes(a, axes, keepdims, out, kernel);
    }
    let ax = if n == 0 {
        None
    } else {
        Some(axes[0])
    };
    match reduction_axis(a, ax, keepdims, out, kernel) {
        Ok(p) => Ok(
            ArgReducePlan {
                axes,
                perm: Vec::new(),
                materialize: p.materialize,
                kernel_shape: p.kernel_shape,
                kernel_axis: p.kernel_axis,
                axis_len: p.axis_len,
                out_shape: p.out_shape,
                out_dtype: p.out_dtype,
            },
        ),
        Err(e) => Err(e),
    }
}

/// `r` is what argmax/argmin with these arguments gives.
pub open spec fn arg_plan_matches(
    r: Result<ArgReducePlan, OpError>,
    a: &ArrayDesc,
    axis: Option<&[isize]>,
    keepdims: bool,
    out: Option<&ArrayDesc>,
    kernel: ReduceKernel,
) -> bool {
    match arg_outcome(a, axis, keepdims, out, kernel) {
        Ok((shape, d)) => r matches Ok(p) && p.out_shape@ == shape && p.out_dtype == d && Some(p.axes@)
            == axes_resolution(opt_view(axis), a.shape().len() as int) && arg_kernel_matches(p, a),
        Err(e) => r == Err::<ArgReducePlan, OpError>(e),
    }
}

/// What the argmax/argmin kernel of plan `p` reduces: with no axis, all elements as
/// one row-major axis (copied first unless row-major); with one axis, that axis of
/// `a` in place; with several, `a` reordered by `arg_perm` (copied first unless that
/// order is row-major), the reduced axes merged into its last axis.
pub open spec fn arg_kernel_matches(p: ArgReducePlan, a: &ArrayDesc) -> bool {
    let v = p.axes@;
    if v.len() == 0 {
        &&& p.perm@.len() == 0
        &&& p.kernel_shape@ == seq![seq_prod(a.shape()) as usize]
        &&& p.kernel_axis == 0
        &&& p.axis_len == seq_prod(a.shape())
        &&& p.materialize == !(a.layout.istrides() == c_strides(a.shape()))
    } else if v.len() == 1 {
        &&& p.perm@.len() == 0
        &&& p.kernel_shape@ == a.shape()
        &&& p.kernel_axis == v[0]
        &&& p.axis_len == a.shape()[v[0] as int]
        &&& !p.materialize
    } else {
        &&& p.perm@ == arg_perm(a.shape().len(), v)
        &&& p.materialize == !permuted_contiguous(a.layout, p.perm@)
        &&& p.kernel_shape@ == merged_shape(a.shape(), v)
        &&& p.kernel_axis == p.kernel_shape@.len() - 1
        &&& p.axis_len == seq_prod(permute_seq(a.shape(), v))
    }
}

/// `argmax(a, axis, keepdims, out)`: index of the maximum along the listed axes,
/// always int64 (over several axes: the flat index within those axes).
pub fn argmax(a: &ArrayDesc, axis: Option<&[isize]>, keepdims: bool, out: Option<&ArrayDesc>) -> (r:
    Result<ArgReducePlan, OpError>)
    requires
        a.layout.wf(),
        out matches Some(o) ==> o.layout.wf(),
        nonzero_prod(a.shape()) <= usize::MAX,
    ensures
        arg_plan_matches(r, a, axis, keepdims, out, ReduceKernel::Argmax),
{
    arg_reduce_multi(a, axis, keepdims, out, ReduceKernel::Argmax)
}

/// `argmin(a, axis, keepdims, out)`: index of the minimum along the listed axes,
/// always int64 (over several axes: the flat index within those axes).
pub fn argmin(a: &ArrayDesc, axis: Option<&[isize]>, keepdims: bool, out: Option<&ArrayDesc>) -> (r:
    Result<ArgReducePlan, OpError>)
    requires
        a.layout.wf(),
        out matches Some(o) ==> o.layout.wf(),
        nonzero_prod(a.shape()) <= usize::MAX,
    ensures
        arg_plan_matches(r, a, axis, keepdims, out, ReduceKernel::Argmin),
{
    arg_reduce_multi(a, axis, keepdims, out, ReduceKernel::Argmin)
}


// ── cumsum ─────────────────────────────────────────────────────

/// The normalized axis of a single `axis=` argument (`Some(None)`: over everything),
/// or `None` when it is out of range.
pub open spec fn axis_resolution(axis: Option<isize>, ndim: int) -> Option<Option<usize>> {
    match axis {
        None => Some(None),
        Some(ax) => {
            let n = normalize_axis(ax as int, ndim);
            if 0 <= n < ndim {
                Some(Some(n as usize))
            } else {
                None
            }
        },
    }
}

/// `cumsum(a, axis, out)`: prefix sums along `axis`, keeping the shape, or over the
/// flattened array (a 1-D result) when `axis` is `None`. Integer inputs accumulate
/// and return int64; float32/float64 keep their dtype.
pub fn cumsum(a: &ArrayDesc, axis: Option<isize>, out: Option<&ArrayDesc>) -> (r: Result<
    CumsumPlan,
    OpError,
>)
    requires
        a.layout.wf(),
        nonzero_prod(a.shape()) <= usize::MAX,
    ensures
        match axis_resolution(axis, a.shape().len() as int) {
            None => r == Err::<CumsumPlan, OpError>(OpError::ShapeMismatch),
            Some(ax) => match cumsum_outcome(a, ax, out) {
                Ok((shape, d)) => r matches Ok(p) && cumsum_plan_matches(p, a, ax, shape, d),
                Err(e) => r == Err::<CumsumPlan, OpError>(e),
            },
        },
{
    let ax = match resolve_axis(axis, a.layout.shape.len()) {
        Ok(x) => x,
        Err(e) => {
            return Err(e);
        },
    };
    cumsum_op(a, ax, out)
}

/// `sum`/`prod`/`max`/`min`/`mean` of a float32/float64 array, without `out=`, pass
/// their checks over any resolved axes and return the array's own dtype.
pub proof fn lemma_float_value_reduction_keeps_dtype(
    a: &ArrayDesc,
    v: Seq<usize>,
    keepdims: bool,
    kernel: ReduceKernel,
)
    requires
        a.dtype == Dtype::Float32 || a.dtype == Dtype::Float64,
        !is_index_reduction(kernel),
    ensures
        match multi_reduce_outcome(a, v, keepdims, None, kernel) {
            Ok((s, d)) => d == a.dtype,
            Err(_) => false,
        },
{
    lemma_float_reduction_keeps_dtype(a, None, keepdims, kernel);
    if v.len() > 0 {
        lemma_float_reduction_keeps_dtype(a, Some(v[0]), keepdims, kernel);
        lemma_float_reduction_keeps_dtype(a, Some(v[0]), true, kernel);
    }
}

} // verus!
