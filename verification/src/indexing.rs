//! Views (transpose, permute, flip, slice, index_select, reshapes) and copies
//! (contiguous, gather, scatter, advanced and boolean indexing) of strided arrays
//! held in host memory.

use std::sync::Arc;
use vstd::prelude::*;

use crate::dtype::{spec_element_size, Device, Dtype};
use crate::error::OpError;
use crate::layout::{
    ceil_div, flip_fits, flip_offset, is_permutation, lemma_nonzero_prod_concat,
    lemma_nonzero_prod_pos, lemma_prod_le_nonzero_prod, lemma_strides_fit, nonzero_prod,
    remove_at, reversal, select_offset, slice_base, slice_fits, slice_valid, all_positive, c_stride, c_strides, coord_of, lemma_seq_prod_zero, lemma_suffix_end,
    lemma_suffix_full, lemma_suffix_positive, lemma_suffix_step, lemma_unravel_step, seq_prod,
    strides_fit, suffix_prod, Layout,
};
use crate::broadcast::{broadcast_shape, pad_left, shape_views, spec_broadcast_shape};
use crate::op_builder::lemma_suffix_bounded;

verus! {

/// Slice parameters of one dimension: elements `start, start+step, ..` below `stop`.
#[derive(Clone, Copy, Debug)]
pub struct SliceSpec {
    pub start: usize,
    pub stop: usize,
    pub step: usize,
}

/// An array whose buffer is in host memory: a strided view (`layout`, in elements)
/// into the bytes `data`, shared between an array and its views.
pub struct HostArray {
    pub layout: Layout,
    pub dtype: Dtype,
    pub device: Device,
    pub data: Arc<Vec<u8>>,
}

/// `c` is a coordinate tuple of `shape`.
pub open spec fn valid_coords(c: Seq<int>, shape: Seq<usize>) -> bool {
    &&& c.len() == shape.len()
    &&& forall|d: int| 0 <= d < c.len() ==> 0 <= #[trigger] c[d] < shape[d]
}

/// `c[i] * strides[i] + .. + c[n-1] * strides[n-1]`.
pub open spec fn coords_sum(c: Seq<int>, strides: Seq<int>, i: int) -> int
    decreases c.len() - i,
{
    if i >= c.len() || i < 0 {
        0
    } else {
        c[i] * strides[i] + coords_sum(c, strides, i + 1)
    }
}

/// Position (in elements of the buffer) of the element at coordinates `c`.
pub open spec fn elem_index(l: Layout, c: Seq<int>) -> int {
    l.offset + coords_sum(c, l.istrides(), 0)
}

/// Coordinates of the `lin`-th element in row-major order.
pub open spec fn unravel(lin: int, shape: Seq<usize>) -> Seq<int> {
    Seq::new(shape.len(), |d: int| coord_of(lin, shape, d))
}

/// Widens coordinates to integers.
pub open spec fn int_coords(c: Seq<usize>) -> Seq<int> {
    Seq::new(c.len(), |i: int| c[i] as int)
}

/// `c` with its first `d` entries set to 0.
pub open spec fn zero_prefix(c: Seq<int>, d: int) -> Seq<int> {
    Seq::new(c.len(), |j: int| if j < d { 0 } else { c[j] })
}

impl HostArray {
    /// Bytes per element.
    pub open spec fn esize(&self) -> int {
        spec_element_size(self.dtype) as int
    }

    /// Number of elements.
    pub open spec fn numel(&self) -> int {
        crate::layout::seq_prod(self.layout.shape@)
    }

    /// A well-formed array: one stride per dimension, and every element of the view
    /// lies inside the buffer.
    pub open spec fn wf(&self) -> bool {
        &&& self.layout.wf()
        &&& self.data@.len() <= isize::MAX
        &&& forall|c: Seq<int>|
            #![trigger elem_index(self.layout, c)]
            valid_coords(c, self.layout.shape@) ==> {
                &&& 0 <= elem_index(self.layout, c)
                &&& (elem_index(self.layout, c) + 1) * self.esize() <= self.data@.len()
            }
    }

    /// The bytes of the element at coordinates `c`.
    pub open spec fn elem_at(&self, c: Seq<int>) -> Seq<u8> {
        let s = elem_index(self.layout, c) * self.esize();
        self.data@.subrange(s, s + self.esize())
    }
}

/// Bytes `i * size .. (i + 1) * size` of `data`: the `i`-th element of a row-major
/// buffer.
pub open spec fn block(data: Seq<u8>, i: int, size: int) -> Seq<u8> {
    data.subrange(i * size, (i + 1) * size)
}

/// Sums agree when the coordinates agree from `i` on.
proof fn lemma_coords_sum_agree(c1: Seq<int>, c2: Seq<int>, st: Seq<int>, i: int)
    requires
        c1.len() == c2.len(),
        0 <= i,
        forall|k: int| i <= k < c1.len() ==> c1[k] == c2[k],
    ensures
        coords_sum(c1, st, i) == coords_sum(c2, st, i),
    decreases c1.len() - i,
{
    if i < c1.len() {
        lemma_coords_sum_agree(c1, c2, st, i + 1);
    }
}

/// Two sums whose terms agree except in dimension `k` differ by the difference of
/// their `k` terms.
proof fn lemma_coords_sum_one_term(c1: Seq<int>, s1: Seq<int>, c2: Seq<int>, s2: Seq<int>, k: int, i: int)
    requires
        c1.len() == c2.len(),
        0 <= i,
        forall|j: int| i <= j < c1.len() && j != k ==> #[trigger] (c1[j] * s1[j]) == c2[j] * s2[j],
    ensures
        coords_sum(c1, s1, i) - coords_sum(c2, s2, i) == if i <= k < c1.len() {
            c1[k] * s1[k] - c2[k] * s2[k]
        } else {
            0
        },
    decreases c1.len() - i,
{
    if i < c1.len() {
        lemma_coords_sum_one_term(c1, s1, c2, s2, k, i + 1);
        if i != k {
            assert(c1[i] * s1[i] == c2[i] * s2[i]);
        }
    }
}

/// `c` with coordinate `axis` counted from the other end of a dimension of `n`.
pub open spec fn flip_coords(c: Seq<int>, axis: int, n: int) -> Seq<int> {
    c.update(axis, n - 1 - c[axis])
}

/// A flipped view of a well-formed array is well-formed, and its element at `c` is
/// the array's element at `c` with coordinate `axis` reversed.
proof fn lemma_flip_elements(x: &HostArray, v: &HostArray, axis: int)
    requires
        x.wf(),
        0 <= axis < x.layout.shape@.len(),
        flip_fits(x.layout, axis),
        v.layout.wf(),
        v.layout.shape@ == x.layout.shape@,
        v.layout.strides@ == x.layout.strides@.update(axis, (-x.layout.strides@[axis]) as isize),
        v.layout.offset == flip_offset(x.layout, axis),
        v.dtype == x.dtype,
        v.data@ == x.data@,
    ensures
        v.wf(),
        forall|c: Seq<int>|
            valid_coords(c, v.layout.shape@) ==> #[trigger] elem_index(v.layout, c) == elem_index(
                x.layout,
                flip_coords(c, axis, x.layout.shape@[axis] as int),
            ),
{
    let n = x.layout.shape@[axis] as int;
    let st = x.layout.strides@[axis] as int;
    assert forall|c: Seq<int>| valid_coords(c, v.layout.shape@) implies #[trigger] elem_index(
        v.layout,
        c,
    ) == elem_index(x.layout, flip_coords(c, axis, n)) by {
        let f = flip_coords(c, axis, n);
        assert(v.layout.istrides()[axis] == -st);
        assert forall|j: int| 0 <= j < c.len() && j != axis implies #[trigger] (c[j]
            * v.layout.istrides()[j]) == f[j] * x.layout.istrides()[j] by {
            assert(v.layout.istrides()[j] == x.layout.istrides()[j]);
        }
        lemma_coords_sum_one_term(c, v.layout.istrides(), f, x.layout.istrides(), axis, 0);
        assert(c[axis] * (-st) - (n - 1 - c[axis]) * st == -((n - 1) * st)) by (nonlinear_arith);
        assert(n > 0);
    }
    assert forall|c: Seq<int>| #![trigger elem_index(v.layout, c)] valid_coords(c, v.layout.shape@) implies {
        &&& 0 <= elem_index(v.layout, c)
        &&& (elem_index(v.layout, c) + 1) * v.esize() <= v.data@.len()
    } by {
        let f = flip_coords(c, axis, n);
        assert(valid_coords(f, x.layout.shape@));
        assert(elem_index(v.layout, c) == elem_index(x.layout, f));
    }
}

/// The sum over coordinates with `idx` inserted at `k`, from dimension `i + 1` on
/// (`i >= k`), is the sum over `c` from `i` on with the stride of
/// `k` removed.
proof fn lemma_coords_sum_after_insert(c: Seq<int>, st: Seq<int>, k: int, idx: int, i: int)
    requires
        0 <= k <= i <= c.len(),
        st.len() == c.len() + 1,
    ensures
        coords_sum(c.insert(k, idx), st, i + 1) == coords_sum(c, remove_at(st, k), i),
    decreases c.len() - i,
{
    if i < c.len() {
        lemma_coords_sum_after_insert(c, st, k, idx, i + 1);
        assert(c.insert(k, idx)[i + 1] == c[i]);
        assert(remove_at(st, k)[i] == st[i + 1]);
    }
}

/// Inserting coordinate `idx` at `k` adds `idx` times the stride of `k` to the sum.
proof fn lemma_coords_sum_insert(c: Seq<int>, st: Seq<int>, k: int, idx: int, i: int)
    requires
        0 <= i <= k <= c.len(),
        st.len() == c.len() + 1,
    ensures
        coords_sum(c.insert(k, idx), st, i) == coords_sum(c, remove_at(st, k), i) + idx * st[k],
    decreases k - i,
{
    if i == k {
        lemma_coords_sum_after_insert(c, st, k, idx, k);
    } else {
        lemma_coords_sum_insert(c, st, k, idx, i + 1);
        assert(c.insert(k, idx)[i] == c[i]);
        assert(remove_at(st, k)[i] == st[i]);
    }
}

/// A view of a well-formed array with `axis` fixed at `index` is well-formed, and its
/// element at `c` is the array's element at `c` with `index` inserted at `axis`.
proof fn lemma_select_elements(x: &HostArray, v: &HostArray, axis: int, index: int)
    requires
        x.wf(),
        0 <= axis < x.layout.shape@.len(),
        0 <= index < x.layout.shape@[axis],
        v.layout.wf(),
        v.layout.shape@ == remove_at(x.layout.shape@, axis),
        v.layout.strides@ == remove_at(x.layout.strides@, axis),
        v.layout.offset == select_offset(x.layout, axis, index),
        v.dtype == x.dtype,
        v.data@ == x.data@,
    ensures
        v.wf(),
        forall|c: Seq<int>|
            valid_coords(c, v.layout.shape@) ==> #[trigger] elem_index(v.layout, c) == elem_index(
                x.layout,
                c.insert(axis, index),
            ),
{
    let xs = x.layout.istrides();
    assert(v.layout.istrides() =~= remove_at(xs, axis));
    assert forall|c: Seq<int>| valid_coords(c, v.layout.shape@) implies #[trigger] elem_index(
        v.layout,
        c,
    ) == elem_index(x.layout, c.insert(axis, index)) by {
        lemma_coords_sum_insert(c, xs, axis, index, 0);
    }
    assert forall|c: Seq<int>| #![trigger elem_index(v.layout, c)] valid_coords(c, v.layout.shape@) implies {
        &&& 0 <= elem_index(v.layout, c)
        &&& (elem_index(v.layout, c) + 1) * v.esize() <= v.data@.len()
    } by {
        let f = c.insert(axis, index);
        assert forall|d: int| 0 <= d < f.len() implies 0 <= #[trigger] f[d] < x.layout.shape@[d] by {
            if d < axis {
                assert(f[d] == c[d] && v.layout.shape@[d] == x.layout.shape@[d]);
            } else if d > axis {
                assert(f[d] == c[d - 1] && v.layout.shape@[d - 1] == x.layout.shape@[d]);
            }
        }
        assert(valid_coords(f, x.layout.shape@));
        assert(elem_index(v.layout, c) == elem_index(x.layout, f));
    }
}

/// The coordinates in the sliced array of coordinates `c` of a slice.
pub open spec fn slice_coords(c: Seq<int>, specs: Seq<SliceSpec>) -> Seq<int> {
    Seq::new(c.len(), |i: int| specs[i].start + c[i] * specs[i].step)
}

/// The sum over sliced coordinates from `i` on is the sum over the slice's own
/// coordinates with the sliced strides plus the starts' contributions from `i` on.
proof fn lemma_coords_sum_slice(c: Seq<int>, specs: Seq<SliceSpec>, xs: Seq<int>, vs: Seq<int>, strides: Seq<isize>, i: int)
    requires
        c.len() == specs.len(),
        0 <= i <= c.len(),
        xs.len() == c.len(),
        strides.len() == c.len(),
        forall|j: int| 0 <= j < c.len() ==> #[trigger] xs[j] == strides[j] as int,
        forall|j: int| 0 <= j < c.len() ==> #[trigger] vs[j] == xs[j] * specs[j].step,
    ensures
        coords_sum(slice_coords(c, specs), xs, i) == coords_sum(c, vs, i) + slice_base(
            0,
            specs,
            strides,
            c.len() as int,
        ) - slice_base(0, specs, strides, i),
    decreases c.len() - i,
{
    if i < c.len() {
        lemma_coords_sum_slice(c, specs, xs, vs, strides, i + 1);
        let st = xs[i];
        let a = specs[i].start as int;
        let b = specs[i].step as int;
        let ci = c[i];
        assert(slice_coords(c, specs)[i] == a + ci * b);
        assert((a + ci * b) * st == ci * (st * b) + a * st) by (nonlinear_arith);
        assert(slice_base(0, specs, strides, i + 1) == slice_base(0, specs, strides, i) + a * st);
    }
}

/// Offsets of slice bases differ by the offsets they start from.
proof fn lemma_slice_base_shift(o: int, specs: Seq<SliceSpec>, strides: Seq<isize>, k: int)
    requires
        k >= 0,
    ensures
        slice_base(o, specs, strides, k) == o + slice_base(0, specs, strides, k),
    decreases k,
{
    if k > 0 {
        lemma_slice_base_shift(o, specs, strides, k - 1);
    }
}

/// A slice of a well-formed array is well-formed, and its element at `c` is the
/// array's element at `start + c * step` in each dimension.
proof fn lemma_slice_elements(x: &HostArray, v: &HostArray, specs: Seq<SliceSpec>)
    requires
        x.wf(),
        slice_valid(x.layout, specs),
        v.layout.wf(),
        v.layout.shape@.len() == x.layout.shape@.len(),
        forall|i: int|
            0 <= i < specs.len() ==> #[trigger] v.layout.shape@[i] == ceil_div(
                specs[i].stop - specs[i].start,
                specs[i].step as int,
            ),
        forall|i: int|
            0 <= i < specs.len() ==> #[trigger] v.layout.strides@[i] == x.layout.strides@[i]
                * specs[i].step,
        v.layout.offset == slice_base(
            x.layout.offset as int,
            specs,
            x.layout.strides@,
            specs.len() as int,
        ),
        v.dtype == x.dtype,
        v.data@ == x.data@,
    ensures
        v.wf(),
        forall|c: Seq<int>|
            valid_coords(c, v.layout.shape@) ==> #[trigger] elem_index(v.layout, c) == elem_index(
                x.layout,
                slice_coords(c, specs),
            ),
{
    let n = specs.len() as int;
    assert forall|c: Seq<int>| valid_coords(c, v.layout.shape@) implies #[trigger] elem_index(
        v.layout,
        c,
    ) == elem_index(x.layout, slice_coords(c, specs)) by {
        lemma_coords_sum_slice(c, specs, x.layout.istrides(), v.layout.istrides(), x.layout.strides@, 0);
        lemma_slice_base_shift(x.layout.offset as int, specs, x.layout.strides@, n);
    }
    assert forall|c: Seq<int>| #![trigger elem_index(v.layout, c)] valid_coords(c, v.layout.shape@) implies {
        &&& 0 <= elem_index(v.layout, c)
        &&& (elem_index(v.layout, c) + 1) * v.esize() <= v.data@.len()
    } by {
        let f = slice_coords(c, specs);
        assert forall|d: int| 0 <= d < f.len() implies 0 <= #[trigger] f[d] < x.layout.shape@[d] by {
            let len = specs[d].stop - specs[d].start;
            let b = specs[d].step as int;
            let cd = c[d];
            assert(0 <= cd < ceil_div(len, b));
            assert(len > 0);
            assert(cd <= (len - 1) / b);
            assert(cd * b <= len - 1) by (nonlinear_arith)
                requires
                    0 <= cd <= (len - 1) / b,
                    b > 0,
                    len >= 1,
            {
                assert(cd * b <= ((len - 1) / b) * b);
            }
            assert(0 <= cd * b) by (nonlinear_arith)
                requires
                    cd >= 0,
                    b > 0,
            ;
        }
        assert(valid_coords(f, x.layout.shape@));
        assert(elem_index(v.layout, c) == elem_index(x.layout, f));
    }
}

/// `f(0) + .. + f(n - 1)`.
pub open spec fn sum_upto(f: spec_fn(int) -> int, n: int) -> int
    decreases n,
{
    if n <= 0 {
        0
    } else {
        sum_upto(f, n - 1) + f(n - 1)
    }
}

/// The terms `c[j] * st[j]` of a position sum.
pub open spec fn position_terms(c: Seq<int>, st: Seq<int>) -> spec_fn(int) -> int {
    |j: int| c[j] * st[j]
}

/// A position sum is the sum of its terms.
proof fn lemma_coords_sum_as_sum(c: Seq<int>, st: Seq<int>, i: int)
    requires
        0 <= i <= c.len(),
    ensures
        coords_sum(c, st, i) + sum_upto(position_terms(c, st), i) == sum_upto(
            position_terms(c, st),
            c.len() as int,
        ),
    decreases c.len() - i,
{
    if i < c.len() {
        lemma_coords_sum_as_sum(c, st, i + 1);
        assert(position_terms(c, st)(i) == c[i] * st[i]);
    }
}

/// Sums that differ in one term `m` differ by the difference of that term.
proof fn lemma_sum_one_term(f: spec_fn(int) -> int, g: spec_fn(int) -> int, m: int, n: int)
    requires
        0 <= m < n,
        forall|j: int| 0 <= j < n && j != m ==> #[trigger] f(j) == g(j),
    ensures
        sum_upto(f, n) - sum_upto(g, n) == f(m) - g(m),
    decreases n,
{
    if n - 1 > m {
        lemma_sum_one_term(f, g, m, n - 1);
        assert(f(n - 1) == g(n - 1));
    } else {
        lemma_sum_agree(f, g, m, m);
    }
}

/// Sums whose terms agree below `k` are equal.
proof fn lemma_sum_agree(f: spec_fn(int) -> int, g: spec_fn(int) -> int, k: int, bound: int)
    requires
        k <= bound,
        forall|j: int| 0 <= j < bound ==> #[trigger] f(j) == g(j),
    ensures
        sum_upto(f, k) == sum_upto(g, k),
    decreases k,
{
    if k > 0 {
        lemma_sum_agree(f, g, k - 1, bound);
    }
}

/// Summing the terms in the order of a permutation gives the same sum.
proof fn lemma_sum_permuted(g: spec_fn(int) -> int, p: Seq<usize>)
    requires
        is_permutation(p, p.len()),
    ensures
        sum_upto(|i: int| g(p[i] as int), p.len() as int) == sum_upto(g, p.len() as int),
    decreases p.len(),
{
    let n = p.len() as int;
    if n > 0 {
        crate::layout::lemma_permutation_surjective(p);
        assert(crate::layout::occurs(p, n - 1));
        let m = choose|t: int| 0 <= t < n && p[t] == n - 1;
        let q = Seq::new((n - 1) as nat, |i: int| if i == m { p[n - 1] } else { p[i] });
        assert(is_permutation(q, q.len())) by {
            assert forall|i: int| 0 <= i < q.len() implies #[trigger] q[i] < q.len() by {
                if i == m {
                    assert(p[n - 1] != p[m]);
                } else {
                    assert(p[i] != p[m]);
                }
            }
            assert forall|i: int, j: int| 0 <= i < j < q.len() implies q[i] != q[j] by {
                if i == m {
                    assert(p[j] != p[n - 1]);
                } else if j == m {
                    assert(p[i] != p[n - 1]);
                } else {
                    assert(p[i] != p[j]);
                }
            }
        }
        lemma_sum_permuted(g, q);
        let fp = |i: int| g(p[i] as int);
        let fq = |i: int| g(q[i] as int);
        if m < n - 1 {
            lemma_sum_one_term(fq, fp, m, n - 1);
        } else {
            lemma_sum_agree(fq, fp, n - 1, n - 1);
        }
    }
}

/// `c` listed in the order of a permutation's inverse: entry `p[i]` is `c[i]`.
pub open spec fn unpermute_coords(c: Seq<int>, p: Seq<usize>) -> Seq<int> {
    Seq::new(c.len(), |j: int| c[choose|i: int| 0 <= i < p.len() && p[i] == j])
}

/// A transposed view of a well-formed array is well-formed, and its element at the
/// permuted coordinates of `c` is the array's element at `c`.
proof fn lemma_permute_elements(x: &HostArray, v: &HostArray, p: Seq<usize>)
    requires
        x.wf(),
        is_permutation(p, x.layout.shape@.len()),
        v.layout.is_permuted_from(x.layout, p),
        v.dtype == x.dtype,
        v.data@ == x.data@,
    ensures
        v.wf(),
        forall|c: Seq<int>|
            valid_coords(c, x.layout.shape@) ==> #[trigger] elem_index(
                v.layout,
                crate::layout::permute_seq(c, p),
            ) == elem_index(x.layout, c),
{
    let xs = x.layout.istrides();
    let vs = v.layout.istrides();
    let n = p.len() as int;
    assert forall|c: Seq<int>| valid_coords(c, x.layout.shape@) implies #[trigger] elem_index(
        v.layout,
        crate::layout::permute_seq(c, p),
    ) == elem_index(x.layout, c) by {
        let pc = crate::layout::permute_seq(c, p);
        let g = position_terms(c, xs);
        lemma_coords_sum_as_sum(pc, vs, 0);
        lemma_coords_sum_as_sum(c, xs, 0);
        lemma_sum_permuted(g, p);
        let f1 = position_terms(pc, vs);
        let f2 = |i: int| g(p[i] as int);
        assert forall|j: int| 0 <= j < n implies #[trigger] f1(j) == f2(j) by {
            assert(vs[j] == xs[p[j] as int]);
        }
        lemma_sum_agree(f1, f2, n, n);
    }
    crate::layout::lemma_permutation_surjective(p);
    assert forall|c: Seq<int>| #![trigger elem_index(v.layout, c)] valid_coords(c, v.layout.shape@) implies {
        &&& 0 <= elem_index(v.layout, c)
        &&& (elem_index(v.layout, c) + 1) * v.esize() <= v.data@.len()
    } by {
        let u = unpermute_coords(c, p);
        assert forall|j: int| 0 <= j < n implies 0 <= #[trigger] u[j] < x.layout.shape@[j] by {
            assert(crate::layout::occurs(p, j));
            let i = choose|i: int| 0 <= i < p.len() && p[i] == j;
            assert(u[j] == c[i]);
            assert(v.layout.shape@[i] == x.layout.shape@[p[i] as int]);
        }
        assert(valid_coords(u, x.layout.shape@));
        assert forall|i: int| 0 <= i < n implies #[trigger] crate::layout::permute_seq(u, p)[i]
            == c[i] by {
            let j = p[i] as int;
            assert(crate::layout::occurs(p, j));
            let i2 = choose|i2: int| 0 <= i2 < p.len() && p[i2] == j;
            if i2 != i {
                if i2 < i {
                    assert(p[i2] != p[i]);
                } else {
                    assert(p[i] != p[i2]);
                }
            }
        }
        assert(crate::layout::permute_seq(u, p) =~= c);
        assert(elem_index(v.layout, crate::layout::permute_seq(u, p)) == elem_index(x.layout, u));
    }
}

/// Zeroing the first `d` coordinates leaves exactly the sum from `d` on.
proof fn lemma_coords_sum_zero_prefix(c: Seq<int>, st: Seq<int>, d: int, j: int)
    requires
        0 <= j <= d <= c.len(),
    ensures
        coords_sum(zero_prefix(c, d), st, j) == coords_sum(c, st, d),
    decreases d - j,
{
    if j == d {
        lemma_coords_sum_agree(zero_prefix(c, d), c, st, d);
    } else {
        lemma_coords_sum_zero_prefix(c, st, d, j + 1);
        assert(zero_prefix(c, d)[j] == 0);
    }
}

/// In a well-formed array every partial sum of an element's position is smaller in
/// magnitude than the buffer.
proof fn lemma_partial_sum_bound(x: &HostArray, c: Seq<int>, i: int)
    requires
        x.wf(),
        valid_coords(c, x.layout.shape@),
        0 <= i <= c.len(),
    ensures
        -(x.data@.len() as int) < coords_sum(c, x.layout.istrides(), i) < x.data@.len(),
        0 <= x.layout.offset + coords_sum(c, x.layout.istrides(), i) < x.data@.len(),
{
    let st = x.layout.istrides();
    let z = zero_prefix(c, i);
    let zero = zero_prefix(c, c.len() as int);
    assert(valid_coords(z, x.layout.shape@)) by {
        assert forall|d: int| 0 <= d < z.len() implies 0 <= #[trigger] z[d] < x.layout.shape@[d] by {
            assert(0 <= c[d] < x.layout.shape@[d]);
        }
    }
    assert(valid_coords(zero, x.layout.shape@)) by {
        assert forall|d: int| 0 <= d < zero.len() implies 0 <= #[trigger] zero[d]
            < x.layout.shape@[d] by {
            assert(0 <= c[d] < x.layout.shape@[d]);
        }
    }
    lemma_coords_sum_zero_prefix(c, st, i, 0);
    lemma_coords_sum_zero_prefix(c, st, c.len() as int, 0);
    assert(coords_sum(c, st, c.len() as int) == 0);
    assert(x.esize() >= 1);
    let ez = elem_index(x.layout, z);
    let e0 = elem_index(x.layout, zero);
    assert(0 <= ez && (ez + 1) * x.esize() <= x.data@.len());
    assert(0 <= e0 && (e0 + 1) * x.esize() <= x.data@.len());
    assert((ez + 1) * x.esize() >= ez + 1) by (nonlinear_arith)
        requires
            ez >= 0,
            x.esize() >= 1,
    ;
    assert((e0 + 1) * x.esize() >= e0 + 1) by (nonlinear_arith)
        requires
            e0 >= 0,
            x.esize() >= 1,
    ;
}

/// A product of a coordinate and a stride fits in `i128`.
proof fn lemma_coord_stride_bound(a: int, b: int)
    requires
        0 <= a <= usize::MAX,
        isize::MIN <= b <= isize::MAX,
    ensures
        i128::MIN <= a * b <= i128::MAX,
{
    assert(i128::MIN <= a * b <= i128::MAX) by (nonlinear_arith)
        requires
            0 <= a <= 0xffff_ffff_ffff_ffffint,
            -0x8000_0000_0000_0000int <= b <= 0x7fff_ffff_ffff_ffffint,
    ;
}

/// Position (in elements) of the element at coordinates `c`.
pub(crate) fn element_index(x: &HostArray, c: &[usize]) -> (r: usize)
    requires
        x.wf(),
        valid_coords(int_coords(c@), x.layout.shape@),
    ensures
        r == elem_index(x.layout, int_coords(c@)),
        (r + 1) * x.esize() <= x.data@.len(),
{
    let ghost ci = int_coords(c@);
    let ghost st = x.layout.istrides();
    let n = c.len();
    let mut acc: i128 = 0;
    let mut i: usize = n;
    while i > 0
        invariant
            x.wf(),
            n == c@.len(),
            n == x.layout.strides@.len(),
            ci == int_coords(c@),
            st == x.layout.istrides(),
            valid_coords(ci, x.layout.shape@),
            i <= n,
            acc as int == coords_sum(ci, st, i as int),
        decreases i,
    {
        i = i - 1;
        proof {
            lemma_partial_sum_bound(x, ci, i as int);
            lemma_partial_sum_bound(x, ci, i as int + 1);
            lemma_coord_stride_bound(c@[i as int] as int, x.layout.strides@[i as int] as int);
        }
        let term: i128 = (c[i] as i128) * (x.layout.strides[i] as i128);
        acc = acc + term;
    }
    proof {
        lemma_partial_sum_bound(x, ci, 0);
        assert(0 <= elem_index(x.layout, ci));
        assert((elem_index(x.layout, ci) + 1) * x.esize() <= x.data@.len());
    }
    let e: i128 = x.layout.offset as i128 + acc;
    e as usize
}


/// Unravelled coordinates lie within the shape.
pub(crate) proof fn lemma_unravel_valid(lin: int, shape: Seq<usize>)
    requires
        all_positive(shape),
        lin >= 0,
    ensures
        valid_coords(unravel(lin, shape), shape),
{
    let c = unravel(lin, shape);
    assert forall|d: int| 0 <= d < c.len() implies 0 <= #[trigger] c[d] < shape[d] by {
        lemma_suffix_positive(shape, d + 1);
        assert(shape[d] > 0);
    }
}

/// Coordinates of the `lin`-th element in row-major order.
pub(crate) fn unravel_index(lin: usize, shape: &[usize]) -> (r: Vec<usize>)
    requires
        all_positive(shape@),
    ensures
        int_coords(r@) == unravel(lin as int, shape@),
        valid_coords(int_coords(r@), shape@),
{
    let n = shape.len();
    let mut r: Vec<usize> = Vec::new();
    let mut k: usize = 0;
    while k < n
        invariant
            k <= n,
            r@.len() == k,
        decreases n - k,
    {
        r.push(0);
        k = k + 1;
    }
    let mut idx: usize = lin;
    let mut i: usize = n;
    proof {
        lemma_suffix_end(shape@);
        assert(lin as int / 1 == lin as int);
    }
    while i > 0
        invariant
            n == shape@.len(),
            r@.len() == n,
            all_positive(shape@),
            i <= n,
            idx as int == lin as int / suffix_prod(shape@, i as int),
            forall|j: int| i <= j < n ==> #[trigger] r@[j] as int == coord_of(lin as int, shape@, j),
        decreases i,
    {
        i = i - 1;
        proof {
            lemma_unravel_step(lin as int, shape@, i as int);
        }
        let d = shape[i];
        r.set(i, idx % d);
        idx = idx / d;
    }
    assert(int_coords(r@) =~= unravel(lin as int, shape@));
    proof {
        lemma_unravel_valid(lin as int, shape@);
    }
    r
}

/// Row-major positions of coordinates of a shape stay below the element count of the
/// dimensions involved.
proof fn lemma_row_major_bound(c: Seq<int>, shape: Seq<usize>, i: int)
    requires
        valid_coords(c, shape),
        0 <= i <= c.len(),
    ensures
        0 <= coords_sum(c, c_strides(shape), i) < suffix_prod(shape, i),
    decreases c.len() - i,
{
    if i == c.len() {
        lemma_suffix_end(shape);
    } else {
        lemma_row_major_bound(c, shape, i + 1);
        lemma_suffix_step(shape, i);
        let p = suffix_prod(shape, i + 1);
        let rest = coords_sum(c, c_strides(shape), i + 1);
        let ci = c[i];
        let d = shape[i] as int;
        assert(c_strides(shape)[i] == p);
        assert(0 <= ci * p + rest < d * p) by (nonlinear_arith)
            requires
                0 <= ci < d,
                0 <= rest < p,
        ;
    }
}

/// A row-major layout over a buffer of `numel * esize` bytes is well-formed.
pub(crate) proof fn lemma_row_major_wf(x: &HostArray)
    requires
        x.layout.wf(),
        x.layout.offset == 0,
        x.layout.istrides() == c_strides(x.layout.shape@),
        x.data@.len() == x.numel() * x.esize(),
        x.data@.len() <= isize::MAX,
    ensures
        x.wf(),
{
    assert forall|c: Seq<int>| #![trigger elem_index(x.layout, c)] valid_coords(c, x.layout.shape@) implies {
        &&& 0 <= elem_index(x.layout, c)
        &&& (elem_index(x.layout, c) + 1) * x.esize() <= x.data@.len()
    } by {
        lemma_row_major_bound(c, x.layout.shape@, 0);
        lemma_suffix_full(x.layout.shape@);
        let e = elem_index(x.layout, c);
        let n = x.numel();
        let es = x.esize();
        assert((e + 1) * es <= n * es) by (nonlinear_arith)
            requires
                0 <= e < n,
                es >= 0,
        ;
    }
}

/// A shape whose non-empty dimensions multiply, with an element size, to at most
/// `isize::MAX` bounds its element count's bytes and every row-major stride.
proof fn lemma_nonzero_row_major_bounds(shape: Seq<usize>, es: int)
    requires
        es >= 1,
        nonzero_prod(shape) * es <= isize::MAX,
    ensures
        seq_prod(shape) * es <= isize::MAX,
        seq_prod(shape) <= isize::MAX,
        forall|k: int| 0 <= k <= shape.len() ==> #[trigger] suffix_prod(shape, k) <= isize::MAX,
{
    let z = nonzero_prod(shape);
    lemma_nonzero_prod_pos(shape);
    lemma_prod_le_nonzero_prod(shape);
    crate::layout::lemma_seq_prod_nonneg(shape);
    assert(z <= z * es && seq_prod(shape) * es <= z * es && seq_prod(shape) <= seq_prod(shape) * es)
        by (nonlinear_arith)
        requires
            es >= 1,
            z >= 1,
            0 <= seq_prod(shape) <= z,
    ;
    assert forall|k: int| 0 <= k <= shape.len() implies #[trigger] suffix_prod(shape, k)
        <= isize::MAX by {
        crate::layout::lemma_nonzero_prod_suffix(shape, k);
        lemma_prod_le_nonzero_prod(shape.subrange(k, shape.len() as int));
    }
}

/// The elements of `x` in row-major order, as bytes.
fn copy_row_major(x: &HostArray) -> (out: Vec<u8>)
    requires
        x.wf(),
        x.numel() * x.esize() <= isize::MAX,
    ensures
        out@.len() == x.numel() * x.esize(),
        forall|i: int|
            0 <= i < x.numel() ==> #[trigger] block(out@, i, x.esize()) == x.elem_at(
                unravel(i, x.layout.shape@),
            ),
{
    let shape = x.layout.copy_shape();
    let es = x.dtype.element_size();
    proof {
        lemma_suffix_full(shape@);
        crate::layout::lemma_seq_prod_nonneg(shape@);
        assert(x.numel() <= x.numel() * es) by (nonlinear_arith)
            requires
                x.numel() >= 0,
                es >= 1,
        ;
    }
    let n = crate::op_builder::shape_size(shape.as_slice());
    let mut out: Vec<u8> = Vec::new();
    let mut i: usize = 0;
    while i < n
        invariant
            x.wf(),
            shape@ == x.layout.shape@,
            n == x.numel(),
            es == x.esize(),
            n * es <= isize::MAX,
            i <= n,
            out@.len() == i * es,
            forall|j: int|
                0 <= j < i ==> #[trigger] block(out@, j, es as int) == x.elem_at(
                    unravel(j, shape@),
                ),
        decreases n - i,
    {
        proof {
            crate::layout::lemma_all_positive(shape@);
        }
        let c = unravel_index(i, shape.as_slice());
        let e = element_index(x, c.as_slice());
        proof {
            assert(e * es <= (e + 1) * es && (e + 1) * es == e * es + es) by (nonlinear_arith)
                requires
                    es >= 0,
            ;
        }
        let start = e * es;
        let ghost before = out@;
        let mut b: usize = 0;
        while b < es
            invariant
                x.wf(),
                es == x.esize(),
                start == elem_index(x.layout, int_coords(c@)) * es,
                start + es <= x.data@.len(),
                b <= es,
                out@.len() == i * es + b,
                out@.subrange(0, i * es) == before,
                before.len() == i * es,
                forall|t: int| 0 <= t < b ==> #[trigger] out@[i * es + t] == x.data@[start + t],
            decreases es - b,
        {
            out.push(x.data[start + b]);
            assert(out@.subrange(0, i * es) =~= before);
            b = b + 1;
        }
        proof {
            assert((i + 1) * es == i * es + es) by (nonlinear_arith);
            assert(int_coords(c@) == unravel(i as int, shape@));
            assert(start == elem_index(x.layout, unravel(i as int, shape@)) * x.esize());
            assert(block(out@, i as int, es as int) =~= x.elem_at(unravel(i as int, shape@))) by {
                assert forall|t: int| 0 <= t < es implies #[trigger] block(
                    out@,
                    i as int,
                    es as int,
                )[t] == x.elem_at(unravel(i as int, shape@))[t] by {
                    assert(out@[i * es + t] == x.data@[start + t]);
                }
            }
            assert forall|j: int| 0 <= j < i + 1 implies #[trigger] block(out@, j, es as int)
                == x.elem_at(unravel(j, shape@)) by {
                if j < i {
                    assert((j + 1) * es <= i * es) by (nonlinear_arith)
                        requires
                            j + 1 <= i,
                            es >= 0,
                    ;
                    assert(j * es >= 0 && (j + 1) * es == j * es + es) by (nonlinear_arith)
                        requires
                            j >= 0,
                            es >= 0,
                    ;
                    assert forall|t: int| 0 <= t < es implies #[trigger] block(out@, j, es as int)[t]
                        == block(before, j, es as int)[t] by {
                        assert(j * es + t < i * es);
                        assert(out@.subrange(0, i * es)[j * es + t] == out@[j * es + t]);
                    }
                    assert(block(out@, j, es as int) =~= block(before, j, es as int));
                }
            }
            assert((i + 1) * es <= n * es) by (nonlinear_arith)
                requires
                    i + 1 <= n,
                    es >= 0,
            ;
        }
        i = i + 1;
    }
    out
}

/// `contiguous(x)`: the array in row-major order with offset 0. An array already laid
/// out so is returned as a view sharing its buffer; otherwise its elements are copied,
/// in row-major order, into a new buffer.
pub fn contiguous(x: &HostArray) -> (r: HostArray)
    requires
        x.wf(),
        nonzero_prod(x.layout.shape@) * x.esize() <= isize::MAX,
    ensures
        r.wf(),
        r.layout.shape@ == x.layout.shape@,
        r.layout.spec_is_contiguous(),
        r.dtype == x.dtype,
        r.device == x.device,
        x.layout.spec_is_contiguous() ==> r.data@ == x.data@,
        !x.layout.spec_is_contiguous() ==> {
            &&& r.data@.len() == x.numel() * x.esize()
            &&& forall|i: int|
                0 <= i < x.numel() ==> #[trigger] block(r.data@, i, x.esize()) == x.elem_at(
                    unravel(i, x.layout.shape@),
                )
        },
{
    if x.layout.is_contiguous() {
        let r = HostArray {
            layout: x.layout.duplicate(),
            dtype: x.dtype,
            device: x.device,
            data: share_buffer(&x.data),
        };
        assert(r.layout.istrides() =~= x.layout.istrides());
        assert forall|c: Seq<int>| #[trigger] elem_index(r.layout, c) == elem_index(x.layout, c) by {}
        return r;
    }
    let shape = x.layout.copy_shape();
    let es = x.dtype.element_size();
    proof {
        lemma_nonzero_row_major_bounds(shape@, es as int);
    }
    let out = copy_row_major(x);
    let layout = Layout::from_shape(shape);
    let r = HostArray { layout, dtype: x.dtype, device: x.device, data: Arc::new(out) };
    proof {
        lemma_row_major_wf(&r);
    }
    r
}

/// Another handle on the same buffer (`Arc::clone`): the bytes are shared, not copied.
#[verifier::external_body]
pub(crate) fn share_buffer(b: &Arc<Vec<u8>>) -> (r: Arc<Vec<u8>>)
    ensures
        r@ == b@,
{
    Arc::clone(b)
}


// ── Views (no copy) ────────────────────────────────────────────

/// `x` seen through `layout`: same buffer, dtype and device.
fn view_of(x: &HostArray, layout: Layout) -> (r: HostArray)
    ensures
        r.layout == layout,
        r.dtype == x.dtype,
        r.device == x.device,
        r.data@ == x.data@,
{
    HostArray { layout, dtype: x.dtype, device: x.device, data: share_buffer(&x.data) }
}

/// `transpose(x, axes)`: a view with the dimensions reordered; `None` reverses them,
/// `Some(p)` takes dimension `p[i]` as dimension `i` and must be a permutation.
pub fn transpose(x: &HostArray, axes: Option<&[usize]>) -> (r: Result<HostArray, OpError>)
    requires
        x.layout.wf(),
    ensures
        match axes {
            None => r matches Ok(v) && v.layout.is_permuted_from(x.layout, reversal(x.layout.shape@.len())),
            Some(p) => if is_permutation(p@, x.layout.shape@.len()) {
                r matches Ok(v) && v.layout.is_permuted_from(x.layout, p@)
            } else {
                r is Err && r == Err::<HostArray, OpError>(OpError::ShapeMismatch)
            },
        },
        r matches Ok(v) ==> v.dtype == x.dtype && v.device == x.device && v.data@ == x.data@,
        r matches Ok(v) ==> (x.wf() ==> v.wf() && forall|c: Seq<int>|
            valid_coords(c, x.layout.shape@) ==> #[trigger] v.elem_at(
                crate::layout::permute_seq(c, transpose_perm(axes, x.layout.shape@.len())),
            ) == x.elem_at(c)),
{
    match x.layout.transposed(axes) {
        Ok(l) => {
            let v = view_of(x, l);
            proof {
                let p = transpose_perm(axes, x.layout.shape@.len());
                lemma_reversal_permutation(x.layout.shape@.len());
                if x.wf() {
                    lemma_permute_elements(x, &v, p);
                }
            }
            Ok(v)
        },
        Err(e) => Err(e),
    }
}

/// The permutation `transpose` applies: `axes`, or the dimensions reversed.
pub open spec fn transpose_perm(axes: Option<&[usize]>, n: nat) -> Seq<usize> {
    match axes {
        None => reversal(n),
        Some(p) => p@,
    }
}

/// Reversing the dimensions is a permutation.
proof fn lemma_reversal_permutation(n: nat)
    requires
        n <= usize::MAX,
    ensures
        is_permutation(reversal(n), n),
{
    let r = reversal(n);
    assert forall|i: int| 0 <= i < r.len() implies #[trigger] r[i] == n - 1 - i by {}
}

/// `permute(x, dims)`: `transpose(x, Some(dims))`.
pub fn permute(x: &HostArray, dims: &[usize]) -> (r: Result<HostArray, OpError>)
    requires
        x.layout.wf(),
    ensures
        if is_permutation(dims@, x.layout.shape@.len()) {
            r matches Ok(v) && v.layout.is_permuted_from(x.layout, dims@) && v.dtype == x.dtype
                && v.device == x.device && v.data@ == x.data@ && (x.wf() ==> v.wf() && forall|
                c: Seq<int>,
            |
                valid_coords(c, x.layout.shape@) ==> #[trigger] v.elem_at(
                    crate::layout::permute_seq(c, dims@),
                ) == x.elem_at(c))
        } else {
            r == Err::<HostArray, OpError>(OpError::ShapeMismatch)
        },
{
    let r = transpose(x, Some(dims));
    assert(transpose_perm(Some(dims), x.layout.shape@.len()) == dims@);
    r
}

/// `flip(x, axis)`: a view with `axis` reversed (its stride negated, the offset moved
/// to its last element).
pub fn flip(x: &HostArray, axis: usize) -> (r: Result<HostArray, OpError>)
    requires
        x.layout.wf(),
        axis < x.layout.shape.len() ==> flip_fits(x.layout, axis as int),
    ensures
        axis >= x.layout.shape.len() ==> r == Err::<HostArray, OpError>(OpError::ShapeMismatch),
        axis < x.layout.shape.len() ==> (r matches Ok(v) && {
            &&& v.layout.wf()
            &&& v.layout.shape@ == x.layout.shape@
            &&& v.layout.strides@ == x.layout.strides@.update(
                axis as int,
                (-x.layout.strides@[axis as int]) as isize,
            )
            &&& v.layout.offset == flip_offset(x.layout, axis as int)
            &&& v.dtype == x.dtype && v.device == x.device && v.data@ == x.data@
            &&& x.wf() ==> v.wf() && forall|c: Seq<int>|
                valid_coords(c, v.layout.shape@) ==> #[trigger] v.elem_at(c) == x.elem_at(
                    flip_coords(c, axis as int, x.layout.shape@[axis as int] as int),
                )
        }),
{
    match x.layout.flipped(axis) {
        Ok(l) => {
            let v = view_of(x, l);
            proof {
                if x.wf() {
                    lemma_flip_elements(x, &v, axis as int);
                }
            }
            Ok(v)
        },
        Err(e) => Err(e),
    }
}

/// `slice(x, specs)`: a strided sub-view, one `start..stop` range with step `step >= 1`
/// per dimension.
pub fn slice(x: &HostArray, specs: &[SliceSpec]) -> (r: Result<HostArray, OpError>)
    requires
        x.layout.wf(),
        slice_valid(x.layout, specs@) ==> slice_fits(x.layout, specs@),
    ensures
        !slice_valid(x.layout, specs@) ==> r == Err::<HostArray, OpError>(OpError::ShapeMismatch),
        slice_valid(x.layout, specs@) ==> (r matches Ok(v) && {
            &&& v.layout.wf()
            &&& v.layout.shape@.len() == x.layout.shape@.len()
            &&& forall|i: int|
                0 <= i < specs@.len() ==> #[trigger] v.layout.shape@[i] == ceil_div(
                    specs@[i].stop - specs@[i].start,
                    specs@[i].step as int,
                )
            &&& forall|i: int|
                0 <= i < specs@.len() ==> #[trigger] v.layout.strides@[i] == x.layout.strides@[i]
                    * specs@[i].step
            &&& v.layout.offset == slice_base(
                x.layout.offset as int,
                specs@,
                x.layout.strides@,
                specs@.len() as int,
            )
            &&& v.dtype == x.dtype && v.device == x.device && v.data@ == x.data@
            &&& x.wf() ==> v.wf() && forall|c: Seq<int>|
                valid_coords(c, v.layout.shape@) ==> #[trigger] v.elem_at(c) == x.elem_at(
                    slice_coords(c, specs@),
                )
        }),
{
    match x.layout.sliced(specs) {
        Ok(l) => {
            let v = view_of(x, l);
            proof {
                if x.wf() {
                    lemma_slice_elements(x, &v, specs@);
                }
            }
            Ok(v)
        },
        Err(e) => Err(e),
    }
}

/// `index_select(x, axis, index)`: the view at `index` along `axis`, which is dropped.
pub fn index_select(x: &HostArray, axis: usize, index: usize) -> (r: Result<HostArray, OpError>)
    requires
        x.layout.wf(),
        axis < x.layout.shape.len() && index < x.layout.shape@[axis as int] ==> 0 <= select_offset(
            x.layout,
            axis as int,
            index as int,
        ) <= usize::MAX,
    ensures
        axis >= x.layout.shape.len() || index >= x.layout.shape@[axis as int] ==> r == Err::<
            HostArray,
            OpError,
        >(OpError::ShapeMismatch),
        axis < x.layout.shape.len() && index < x.layout.shape@[axis as int] ==> (r matches Ok(v) && {
            &&& v.layout.wf()
            &&& v.layout.shape@ == remove_at(x.layout.shape@, axis as int)
            &&& v.layout.strides@ == remove_at(x.layout.strides@, axis as int)
            &&& v.layout.offset == select_offset(x.layout, axis as int, index as int)
            &&& v.dtype == x.dtype && v.device == x.device && v.data@ == x.data@
            &&& x.wf() ==> v.wf() && forall|c: Seq<int>|
                valid_coords(c, v.layout.shape@) ==> #[trigger] v.elem_at(c) == x.elem_at(
                    c.insert(axis as int, index as int),
                )
        }),
{
    match x.layout.index_selected(axis, index) {
        Ok(l) => {
            let v = view_of(x, l);
            proof {
                if x.wf() {
                    lemma_select_elements(x, &v, axis as int, index as int);
                }
            }
            Ok(v)
        },
        Err(e) => Err(e),
    }
}

/// The shape with its last `n` dimensions merged into one.
pub open spec fn merge_last_shape(shape: Seq<usize>, n: int) -> Seq<usize> {
    let k = shape.len() - n;
    shape.take(k).push(seq_prod(shape.skip(k)) as usize)
}

/// The shape with its last dimension (of size 1) split into `n` dimensions of size 1.
pub open spec fn split_last_shape(shape: Seq<usize>, n: nat) -> Seq<usize> {
    shape.drop_last() + Seq::new(n, |i: int| 1usize)
}

/// In a row-major layout of offset 0 the `i`-th element in row-major order is at
/// position `i`.
proof fn lemma_contiguous_position(l: Layout, i: int)
    requires
        l.spec_is_contiguous(),
        0 <= i < seq_prod(l.shape@),
    ensures
        elem_index(l, unravel(i, l.shape@)) == i,
        valid_coords(unravel(i, l.shape@), l.shape@),
{
    crate::layout::lemma_all_positive(l.shape@);
    lemma_unravel_valid(i, l.shape@);
    lemma_row_major_of_unravel(i, l.shape@, 0);
    lemma_suffix_full(l.shape@);
    vstd::arithmetic::div_mod::lemma_small_mod(i as nat, seq_prod(l.shape@) as nat);
}

/// A row-major reshape of a well-formed row-major array (same element count, same
/// buffer) is well-formed and holds the same elements in row-major order.
proof fn lemma_reshape_elements(x: &HostArray, v: &HostArray)
    requires
        x.wf(),
        x.layout.spec_is_contiguous(),
        v.layout.wf(),
        v.layout.spec_is_contiguous(),
        seq_prod(v.layout.shape@) == seq_prod(x.layout.shape@),
        v.dtype == x.dtype,
        v.data@ == x.data@,
    ensures
        v.wf(),
        forall|i: int|
            0 <= i < x.numel() ==> #[trigger] v.elem_at(unravel(i, v.layout.shape@)) == x.elem_at(
                unravel(i, x.layout.shape@),
            ),
{
    assert forall|i: int| 0 <= i < x.numel() implies #[trigger] v.elem_at(
        unravel(i, v.layout.shape@),
    ) == x.elem_at(unravel(i, x.layout.shape@)) by {
        lemma_contiguous_position(v.layout, i);
        lemma_contiguous_position(x.layout, i);
    }
    assert forall|c: Seq<int>| #![trigger elem_index(v.layout, c)] valid_coords(c, v.layout.shape@) implies {
        &&& 0 <= elem_index(v.layout, c)
        &&& (elem_index(v.layout, c) + 1) * v.esize() <= v.data@.len()
    } by {
        lemma_row_major_bound(c, v.layout.shape@, 0);
        lemma_suffix_full(v.layout.shape@);
        let p = elem_index(v.layout, c);
        lemma_contiguous_position(x.layout, p);
        assert(elem_index(x.layout, unravel(p, x.layout.shape@)) == p);
    }
}

/// `reshape_merge_last(x, n)`: a row-major view with the last `n` dimensions merged
/// into one (their product). `n <= 1` leaves the view as it is; more dimensions than
/// `x` has, or a non-row-major `x`, is `ShapeMismatch`.
pub fn reshape_merge_last(x: &HostArray, n_merge: usize) -> (r: Result<HostArray, OpError>)
    requires
        x.layout.wf(),
        nonzero_prod(x.layout.shape@) <= isize::MAX,
    ensures
        n_merge <= 1 ==> (r matches Ok(v) && v.layout.shape@ == x.layout.shape@ && v.layout.strides@
            == x.layout.strides@ && v.layout.offset == x.layout.offset),
        n_merge > 1 && n_merge > x.layout.shape@.len() ==> r == Err::<HostArray, OpError>(
            OpError::ShapeMismatch,
        ),
        n_merge > 1 && n_merge <= x.layout.shape@.len() ==> if x.layout.spec_is_contiguous() {
            r matches Ok(v) && v.layout.shape@ == merge_last_shape(x.layout.shape@, n_merge as int)
                && v.layout.istrides() == c_strides(v.layout.shape@) && v.layout.offset == 0
        } else {
            r == Err::<HostArray, OpError>(OpError::ShapeMismatch)
        },
        r matches Ok(v) ==> v.layout.wf() && v.dtype == x.dtype && v.device == x.device && v.data@
            == x.data@,
        r matches Ok(v) ==> (x.wf() ==> v.wf() && forall|i: int|
            0 <= i < x.numel() ==> #[trigger] v.elem_at(unravel(i, v.layout.shape@)) == x.elem_at(
                unravel(i, x.layout.shape@),
            )),
{
    if n_merge <= 1 {
        let v = view_of(x, x.layout.duplicate());
        proof {
            assert forall|c: Seq<int>| #[trigger] elem_index(v.layout, c) == elem_index(x.layout, c) by {
                assert(v.layout.istrides() =~= x.layout.istrides());
            }
        }
        return Ok(v);
    }
    let ndim = x.layout.shape.len();
    if n_merge > ndim {
        return Err(OpError::ShapeMismatch);
    }
    if !x.layout.is_contiguous() {
        return Err(OpError::ShapeMismatch);
    }
    let k = ndim - n_merge;
    let mut head: Vec<usize> = Vec::new();
    let mut tail: Vec<usize> = Vec::new();
    let mut i: usize = 0;
    while i < ndim
        invariant
            ndim == x.layout.shape@.len(),
            k <= ndim,
            i <= ndim,
            i <= k ==> head@ == x.layout.shape@.take(i as int) && tail@.len() == 0,
            i > k ==> head@ == x.layout.shape@.take(k as int) && tail@ == x.layout.shape@.subrange(
                k as int,
                i as int,
            ),
        decreases ndim - i,
    {
        if i < k {
            head.push(x.layout.shape[i]);
            assert(head@ =~= x.layout.shape@.take(i as int + 1));
        } else {
            tail.push(x.layout.shape[i]);
            assert(tail@ =~= x.layout.shape@.subrange(k as int, i as int + 1));
        }
        i = i + 1;
    }
    proof {
        assert(x.layout.shape@ =~= head@ + tail@);
        lemma_nonzero_prod_concat(head@, tail@);
        lemma_nonzero_prod_pos(head@);
        lemma_nonzero_prod_pos(tail@);
        lemma_prod_le_nonzero_prod(tail@);
        let a = nonzero_prod(head@);
        let b = nonzero_prod(tail@);
        assert(b <= a * b) by (nonlinear_arith)
            requires
                a >= 1,
                b >= 1,
        ;
    }
    let m = crate::op_builder::shape_size(tail.as_slice());
    let ghost prefix = head@;
    head.push(m);
    proof {
        assert(head@ =~= prefix + seq![m]);
        lemma_nonzero_prod_concat(prefix, seq![m]);
        lemma_nonzero_prod_concat(prefix, tail@);
        assert(seq![m].drop_first() =~= Seq::<usize>::empty());
        reveal_with_fuel(nonzero_prod, 2);
        let a = nonzero_prod(prefix);
        let b = nonzero_prod(seq![m]);
        let c = nonzero_prod(tail@);
        assert(b <= c);
        assert(a * b <= a * c) by (nonlinear_arith)
            requires
                a >= 1,
                b <= c,
        ;
        lemma_strides_fit(head@);
        assert(merge_last_shape(x.layout.shape@, n_merge as int) =~= head@) by {
            assert(x.layout.shape@.take(k as int) =~= prefix);
            assert(x.layout.shape@.skip(k as int) =~= tail@);
        }
        crate::layout::lemma_seq_prod_concat(prefix, seq![m]);
        crate::layout::lemma_seq_prod_concat(prefix, tail@);
        assert(seq_prod(seq![m]) == m) by {
            assert(seq![m].drop_first() =~= Seq::<usize>::empty());
            reveal_with_fuel(seq_prod, 2);
        }
    }
    let v = view_of(x, Layout::from_shape(head));
    proof {
        if x.wf() {
            lemma_reshape_elements(x, &v);
        }
    }
    Ok(v)
}

/// `reshape_split_last(x, n)`: a row-major view with the last dimension, which must
/// have size 1, replaced by `n` dimensions of size 1 (`n <= 1` leaves the view as it
/// is). A 0-dim `x`, a last dimension other than 1, or a non-row-major `x` is
/// `ShapeMismatch`.
pub fn reshape_split_last(x: &HostArray, n: usize) -> (r: Result<HostArray, OpError>)
    requires
        x.layout.wf(),
        nonzero_prod(x.layout.shape@) <= isize::MAX,
    ensures
        n <= 1 ==> (r matches Ok(v) && v.layout.shape@ == x.layout.shape@ && v.layout.strides@
            == x.layout.strides@ && v.layout.offset == x.layout.offset),
        n > 1 ==> if x.layout.shape@.len() == 0 || x.layout.shape@.last() != 1
            || !x.layout.spec_is_contiguous() {
            r == Err::<HostArray, OpError>(OpError::ShapeMismatch)
        } else {
            r matches Ok(v) && v.layout.shape@ == split_last_shape(x.layout.shape@, n as nat)
                && v.layout.istrides() == c_strides(v.layout.shape@) && v.layout.offset == 0
        },
        r matches Ok(v) ==> v.layout.wf() && v.dtype == x.dtype && v.device == x.device && v.data@
            == x.data@,
        r matches Ok(v) ==> (x.wf() ==> v.wf() && forall|i: int|
            0 <= i < x.numel() ==> #[trigger] v.elem_at(unravel(i, v.layout.shape@)) == x.elem_at(
                unravel(i, x.layout.shape@),
            )),
{
    if n <= 1 {
        let v = view_of(x, x.layout.duplicate());
        proof {
            assert forall|c: Seq<int>| #[trigger] elem_index(v.layout, c) == elem_index(x.layout, c) by {
                assert(v.layout.istrides() =~= x.layout.istrides());
            }
        }
        return Ok(v);
    }
    let ndim = x.layout.shape.len();
    if ndim == 0 || x.layout.shape[ndim - 1] != 1 {
        return Err(OpError::ShapeMismatch);
    }
    if !x.layout.is_contiguous() {
        return Err(OpError::ShapeMismatch);
    }
    let mut shape: Vec<usize> = Vec::new();
    let mut i: usize = 0;
    while i + 1 < ndim
        invariant
            ndim == x.layout.shape@.len(),
            ndim >= 1,
            i <= ndim - 1,
            shape@ == x.layout.shape@.take(i as int),
        decreases ndim - i,
    {
        shape.push(x.layout.shape[i]);
        assert(shape@ =~= x.layout.shape@.take(i as int + 1));
        i = i + 1;
    }
    let ghost prefix = shape@;
    let mut j: usize = 0;
    while j < n
        invariant
            j <= n,
            shape@ == prefix + Seq::new(j as nat, |t: int| 1usize),
        decreases n - j,
    {
        shape.push(1);
        assert(shape@ =~= prefix + Seq::new(j as nat + 1, |t: int| 1usize));
        j = j + 1;
    }
    proof {
        assert(prefix =~= x.layout.shape@.drop_last());
        assert(x.layout.shape@ =~= prefix + seq![1usize]);
        lemma_nonzero_prod_concat(prefix, seq![1usize]);
        lemma_nonzero_prod_concat(prefix, Seq::new(n as nat, |t: int| 1usize));
        crate::op_builder::lemma_ones_prod(n as nat);
        lemma_ones_nonzero_prod(n as nat);
        assert(seq![1usize].drop_first() =~= Seq::<usize>::empty());
        reveal_with_fuel(nonzero_prod, 2);
        assert(nonzero_prod(seq![1usize]) == 1);
        lemma_strides_fit(shape@);
        crate::layout::lemma_seq_prod_concat(prefix, seq![1usize]);
        crate::layout::lemma_seq_prod_concat(prefix, Seq::new(n as nat, |t: int| 1usize));
        assert(seq_prod(seq![1usize]) == 1) by {
            assert(seq![1usize].drop_first() =~= Seq::<usize>::empty());
            reveal_with_fuel(seq_prod, 2);
        }
    }
    let v = view_of(x, Layout::from_shape(shape));
    proof {
        if x.wf() {
            lemma_reshape_elements(x, &v);
        }
    }
    Ok(v)
}

/// A shape of ones has a zero-free product of 1.
proof fn lemma_ones_nonzero_prod(n: nat)
    ensures
        nonzero_prod(Seq::new(n, |i: int| 1usize)) == 1,
    decreases n,
{
    if n > 0 {
        lemma_ones_nonzero_prod((n - 1) as nat);
        assert(Seq::new(n, |i: int| 1usize).drop_first() =~= Seq::new((n - 1) as nat, |i: int| 1usize));
    }
}


// ── gather / scatter ───────────────────────────────────────────

/// Value of entry `j` of a 1-D int64 index array (little-endian bytes).
pub open spec fn index_value(ix: &HostArray, j: int) -> i64 {
    vstd::bytes::spec_u64_from_le_bytes(ix.elem_at(seq![j])) as i64
}

/// The entries of a 1-D int64 index array.
pub open spec fn index_values(ix: &HostArray) -> Seq<i64> {
    Seq::new(ix.layout.shape@[0] as nat, |j: int| index_value(ix, j))
}

/// Every index lies in `0..axis_len`.
pub open spec fn indices_in_range(idx: Seq<i64>, axis_len: int) -> bool {
    forall|j: int| 0 <= j < idx.len() ==> 0 <= #[trigger] idx[j] < axis_len
}

/// Reads the entries of a 1-D int64 index array.
fn read_indices(ix: &HostArray) -> (r: Vec<i64>)
    requires
        ix.wf(),
        ix.dtype == Dtype::Int64,
        ix.layout.shape@.len() == 1,
    ensures
        r@ == index_values(ix),
{
    let n = ix.layout.shape[0];
    let mut r: Vec<i64> = Vec::new();
    let mut j: usize = 0;
    while j < n
        invariant
            ix.wf(),
            ix.dtype == Dtype::Int64,
            ix.layout.shape@.len() == 1,
            n == ix.layout.shape@[0],
            j <= n,
            r@.len() == j,
            forall|t: int| 0 <= t < j ==> #[trigger] r@[t] == index_value(ix, t),
        decreases n - j,
    {
        let c: Vec<usize> = vec![j];
        assert(int_coords(c@) =~= seq![j as int]);
        let e = element_index(ix, c.as_slice());
        assert(ix.esize() == 8);
        let start = e * 8;
        let mut bytes: Vec<u8> = Vec::new();
        let mut b: usize = 0;
        while b < 8
            invariant
                ix.wf(),
                start + 8 <= ix.data@.len(),
                b <= 8,
                bytes@ == ix.data@.subrange(start as int, start + b),
            decreases 8 - b,
        {
            bytes.push(ix.data[start + b]);
            assert(bytes@ =~= ix.data@.subrange(start as int, start + b + 1));
            b = b + 1;
        }
        let v = vstd::bytes::u64_from_le_bytes(bytes.as_slice());
        assert(bytes@ == ix.elem_at(seq![j as int]));
        r.push(v as i64);
        j = j + 1;
    }
    assert(r@ =~= index_values(ix));
    r
}

/// Checks that every index lies in `0..axis_len`; `ShapeMismatch` otherwise.
pub fn check_indices_bounds(idx: &[i64], axis_len: usize) -> (r: Result<(), OpError>)
    ensures
        indices_in_range(idx@, axis_len as int) ==> r == Ok::<(), OpError>(()),
        !indices_in_range(idx@, axis_len as int) ==> r == Err::<(), OpError>(OpError::ShapeMismatch),
{
    let mut j: usize = 0;
    while j < idx.len()
        invariant
            j <= idx.len(),
            forall|t: int| 0 <= t < j ==> 0 <= #[trigger] idx@[t] < axis_len,
        decreases idx.len() - j,
    {
        let k = idx[j];
        if k < 0 || k as i128 >= axis_len as i128 {
            return Err(OpError::ShapeMismatch);
        }
        j = j + 1;
    }
    Ok(())
}

/// Shape of `gather(x, ix, axis)`: `x`'s shape with dimension `axis` replaced by the
/// number of indices.
pub open spec fn gather_shape(x: &HostArray, ix: &HostArray, axis: int) -> Seq<usize> {
    x.layout.shape@.update(axis, ix.layout.shape@[0])
}

/// The element of `x` that output element `o` of a gather copies: its coordinates,
/// with the one along `axis` looked up in the indices.
pub open spec fn gather_source(o: int, out_shape: Seq<usize>, axis: int, idx: Seq<i64>) -> Seq<int> {
    let c = unravel(o, out_shape);
    c.update(axis, idx[c[axis]] as int)
}

/// Outcome of the checks of `gather` (`Ok(())`: the gather goes ahead).
pub open spec fn gather_check(x: &HostArray, ix: &HostArray, axis: int) -> Result<(), OpError> {
    if axis >= x.layout.shape@.len() {
        Err(OpError::ShapeMismatch)
    } else if ix.layout.shape@.len() != 1 {
        Err(OpError::ShapeMismatch)
    } else if ix.dtype != Dtype::Int64 {
        Err(OpError::DtypeUnsupported)
    } else if !indices_in_range(index_values(ix), x.layout.shape@[axis] as int) {
        Err(OpError::ShapeMismatch)
    } else {
        Ok(())
    }
}

/// `g` is the gather of `x` at `indices` along `axis`: a well-formed row-major array
/// of `gather_shape` whose element `o` is `x`'s element at `gather_source`.
pub open spec fn gather_result(g: &HostArray, x: &HostArray, indices: &HostArray, axis: int) -> bool {
    let shape = gather_shape(x, indices, axis);
    &&& g.wf()
    &&& g.layout.shape@ == shape
    &&& g.layout.spec_is_contiguous()
    &&& g.dtype == x.dtype && g.device == x.device
    &&& forall|o: int|
        0 <= o < seq_prod(shape) ==> #[trigger] block(g.data@, o, x.esize()) == x.elem_at(
            gather_source(o, shape, axis, index_values(indices)),
        )
}

/// `gather(x, indices, axis)` (`np.take`): a new row-major array whose shape is `x`'s
/// with dimension `axis` replaced by the number of indices, and whose element at
/// coordinates `c` is `x`'s element at `c` with coordinate `axis` replaced by
/// `indices[c[axis]]`. `axis` must be a dimension of `x`, and `indices` a 1-D int64
/// array of values in `0..x.shape[axis]`.
pub fn gather(x: &HostArray, indices: &HostArray, axis: usize) -> (r: Result<HostArray, OpError>)
    requires
        x.wf(),
        indices.wf(),
        axis < x.layout.shape@.len() && indices.layout.shape@.len() == 1 ==> nonzero_prod(
            gather_shape(x, indices, axis as int),
        ) * x.esize() <= isize::MAX,
    ensures
        match gather_check(x, indices, axis as int) {
            Err(e) => r == Err::<HostArray, OpError>(e),
            Ok(()) => r matches Ok(g) && gather_result(&g, x, indices, axis as int),
        },
{
    let ndim = x.layout.shape.len();
    if axis >= ndim {
        return Err(OpError::ShapeMismatch);
    }
    if indices.layout.shape.len() != 1 {
        return Err(OpError::ShapeMismatch);
    }
    if indices.dtype != Dtype::Int64 {
        return Err(OpError::DtypeUnsupported);
    }
    let idx = read_indices(indices);
    let axis_len = x.layout.shape[axis];
    match check_indices_bounds(idx.as_slice(), axis_len) {
        Ok(()) => {},
        Err(e) => {
            return Err(e);
        },
    }
    let mut out_shape = x.layout.copy_shape();
    out_shape.set(axis, indices.layout.shape[0]);
    let es = x.dtype.element_size();
    proof {
        crate::layout::lemma_seq_prod_nonneg(out_shape@);
        lemma_prod_le_nonzero_prod(out_shape@);
        lemma_nonzero_prod_pos(out_shape@);
        let a = seq_prod(out_shape@);
        let b = nonzero_prod(out_shape@);
        assert(a * es <= b * es && b <= b * es && a <= a * es) by (nonlinear_arith)
            requires
                a <= b,
                es >= 1,
                a >= 0,
        ;
        crate::layout::lemma_seq_prod_nonneg(out_shape@);
    }
    let n = crate::op_builder::shape_size(out_shape.as_slice());
    let mut out: Vec<u8> = Vec::new();
    let mut o: usize = 0;
    while o < n
        invariant
            x.wf(),
            ndim == x.layout.shape@.len(),
            axis < ndim,
            out_shape@ == gather_shape(x, indices, axis as int),
            idx@ == index_values(indices),
            indices_in_range(idx@, x.layout.shape@[axis as int] as int),
            n == seq_prod(out_shape@),
            es == x.esize(),
            n * es <= isize::MAX,
            o <= n,
            out@.len() == o * es,
            forall|j: int|
                0 <= j < o ==> #[trigger] block(out@, j, es as int) == x.elem_at(
                    gather_source(j, out_shape@, axis as int, idx@),
                ),
        decreases n - o,
    {
        proof {
            lemma_seq_prod_zero(out_shape@);
            assert forall|d: int| 0 <= d < out_shape@.len() implies #[trigger] out_shape@[d] > 0 by {
                if out_shape@[d] == 0 {
                    assert(seq_prod(out_shape@) == 0);
                }
            }
        }
        let mut c = unravel_index(o, out_shape.as_slice());
        let ca = c[axis];
        assert(int_coords(c@)[axis as int] == ca as int);
        let k = idx[ca];
        c.set(axis, k as usize);
        proof {
            assert(int_coords(c@) =~= gather_source(o as int, out_shape@, axis as int, idx@));
            assert(valid_coords(int_coords(c@), x.layout.shape@)) by {
                assert forall|d: int| 0 <= d < ndim implies 0 <= #[trigger] int_coords(c@)[d]
                    < x.layout.shape@[d] by {
                    if d != axis {
                        assert(int_coords(c@)[d] == unravel(o as int, out_shape@)[d]);
                    }
                }
            }
        }
        let e = element_index(x, c.as_slice());
        proof {
            assert(e * es <= (e + 1) * es && (e + 1) * es == e * es + es) by (nonlinear_arith)
                requires
                    es >= 0,
            ;
        }
        let start = e * es;
        let ghost before = out@;
        let mut b: usize = 0;
        while b < es
            invariant
                x.wf(),
                es == x.esize(),
                start + es <= x.data@.len(),
                b <= es,
                out@.len() == o * es + b,
                out@.subrange(0, o * es) == before,
                before.len() == o * es,
                forall|t: int| 0 <= t < b ==> #[trigger] out@[o * es + t] == x.data@[start + t],
            decreases es - b,
        {
            out.push(x.data[start + b]);
            assert(out@.subrange(0, o * es) =~= before);
            b = b + 1;
        }
        proof {
            lemma_append_block(before, out@, o as int, es as int, x.elem_at(
                gather_source(o as int, out_shape@, axis as int, idx@),
            ), x.data@, start as int);
            assert((o + 1) * es <= n * es) by (nonlinear_arith)
                requires
                    o + 1 <= n,
                    es >= 0,
            ;
        }
        o = o + 1;
    }
    proof {
        assert forall|k: int| 0 <= k <= out_shape@.len() implies #[trigger] suffix_prod(out_shape@, k)
            <= isize::MAX by {
            crate::layout::lemma_nonzero_prod_suffix(out_shape@, k);
            lemma_prod_le_nonzero_prod(out_shape@.subrange(k, out_shape@.len() as int));
        }
    }
    let layout = Layout::from_shape(out_shape);
    let g = HostArray { layout, dtype: x.dtype, device: x.device, data: Arc::new(out) };
    proof {
        lemma_row_major_wf(&g);
    }
    Ok(g)
}

/// Appending one block of `size` bytes (copied from `src` at `start`) keeps the earlier
/// blocks and adds block `i`.
proof fn lemma_append_block(
    before: Seq<u8>,
    after: Seq<u8>,
    i: int,
    size: int,
    elem: Seq<u8>,
    src: Seq<u8>,
    start: int,
)
    requires
        0 <= i,
        size >= 0,
        before.len() == i * size,
        after.len() == i * size + size,
        after.subrange(0, i * size) == before,
        elem == src.subrange(start, start + size),
        0 <= start,
        start + size <= src.len(),
        forall|t: int| 0 <= t < size ==> #[trigger] after[i * size + t] == src[start + t],
    ensures
        after.len() == (i + 1) * size,
        block(after, i, size) == elem,
        forall|j: int| 0 <= j < i ==> #[trigger] block(after, j, size) == block(before, j, size),
{
    assert((i + 1) * size == i * size + size) by (nonlinear_arith);
    assert(block(after, i, size) =~= elem) by {
        assert forall|t: int| 0 <= t < size implies #[trigger] block(after, i, size)[t] == elem[t] by {
            assert(after[i * size + t] == src[start + t]);
        }
    }
    assert forall|j: int| 0 <= j < i implies #[trigger] block(after, j, size) == block(before, j, size) by {
        assert((j + 1) * size <= i * size) by (nonlinear_arith)
            requires
                j + 1 <= i,
                size >= 0,
        ;
        assert(j * size >= 0 && (j + 1) * size == j * size + size) by (nonlinear_arith)
            requires
                j >= 0,
                size >= 0,
        ;
        assert forall|t: int| 0 <= t < size implies #[trigger] block(after, j, size)[t] == block(
            before,
            j,
            size,
        )[t] by {
            assert(j * size + t < i * size);
            assert(after.subrange(0, i * size)[j * size + t] == after[j * size + t]);
        }
        assert(block(after, j, size) =~= block(before, j, size));
    }
}


/// Row-major position of coordinates `c` of `shape`.
pub(crate) fn row_major_position(shape: &[usize], c: &[usize]) -> (r: usize)
    requires
        valid_coords(int_coords(c@), shape@),
        seq_prod(shape@) <= usize::MAX,
    ensures
        r == coords_sum(int_coords(c@), c_strides(shape@), 0),
        r < seq_prod(shape@),
{
    let ghost ci = int_coords(c@);
    let n = shape.len();
    proof {
        lemma_seq_prod_zero(shape@);
        assert forall|d: int| 0 <= d < n implies #[trigger] shape@[d] > 0 by {
            assert(0 <= ci[d] < shape@[d]);
        }
        lemma_suffix_end(shape@);
        lemma_suffix_full(shape@);
    }
    let mut acc: usize = 0;
    let mut stride: usize = 1;
    let mut i: usize = n;
    while i > 0
        invariant
            n == shape@.len(),
            n == c@.len(),
            ci == int_coords(c@),
            valid_coords(ci, shape@),
            seq_prod(shape@) <= usize::MAX,
            seq_prod(shape@) != 0,
            suffix_prod(shape@, 0) == seq_prod(shape@),
            i <= n,
            stride as int == suffix_prod(shape@, i as int),
            acc as int == coords_sum(ci, c_strides(shape@), i as int),
        decreases i,
    {
        i = i - 1;
        proof {
            lemma_row_major_bound(ci, shape@, i as int);
            lemma_suffix_step(shape@, i as int);
            lemma_suffix_bounded(shape@, i as int);
            assert(c_strides(shape@)[i as int] == suffix_prod(shape@, i as int + 1));
            let a = c@[i as int] as int;
            let st = stride as int;
            let d = shape@[i as int] as int;
            assert(a * st <= d * st && d * st == st * d) by (nonlinear_arith)
                requires
                    0 <= a < d,
                    st >= 0,
            ;
        }
        acc = acc + c[i] * stride;
        stride = stride * shape[i];
    }
    proof {
        lemma_row_major_bound(ci, shape@, 0);
    }
    acc
}

/// Row-major position in `x` of the element that value element `v` is written to.
pub open spec fn scatter_target(v: int, vshape: Seq<usize>, shape: Seq<usize>, axis: int, idx: Seq<i64>) -> int {
    coords_sum(gather_source(v, vshape, axis, idx), c_strides(shape), 0)
}

/// The last of the value elements `0..t` written to position `p`, if any.
spec fn last_write(
    p: int,
    t: int,
    vshape: Seq<usize>,
    shape: Seq<usize>,
    axis: int,
    idx: Seq<i64>,
) -> Option<int>
    decreases t,
{
    if t <= 0 {
        None
    } else if scatter_target(t - 1, vshape, shape, axis, idx) == p {
        Some(t - 1)
    } else {
        last_write(p, t - 1, vshape, shape, axis, idx)
    }
}

/// Element at row-major position `p` of the output buffer of `scatter` once the value
/// elements `0..t` have been written, in row-major order, one after the other.
spec fn scattered_elem(x: &HostArray, ix: &HostArray, vals: &HostArray, axis: int, t: int, p: int) -> Seq<u8> {
    match last_write(p, t, vals.layout.shape@, x.layout.shape@, axis, index_values(ix)) {
        Some(v) => vals.elem_at(unravel(v, vals.layout.shape@)),
        None => x.elem_at(unravel(p, x.layout.shape@)),
    }
}

/// Some value element below `t` is written to row-major position `p`.
pub open spec fn is_scatter_target(
    p: int,
    t: int,
    vshape: Seq<usize>,
    shape: Seq<usize>,
    axis: int,
    idx: Seq<i64>,
) -> bool {
    exists|v: int| 0 <= v < t && #[trigger] scatter_target(v, vshape, shape, axis, idx) == p
}

/// `e` may stand at row-major position `p` of `scatter(x, ix, vals, axis)`: where value
/// elements are written, it is one of them (which one is left open when several land
/// there); elsewhere it is `x`'s own element.
pub open spec fn scatter_elem_ok(
    x: &HostArray,
    ix: &HostArray,
    vals: &HostArray,
    axis: int,
    p: int,
    e: Seq<u8>,
) -> bool {
    let vshape = vals.layout.shape@;
    let shape = x.layout.shape@;
    let idx = index_values(ix);
    if is_scatter_target(p, vals.numel(), vshape, shape, axis, idx) {
        exists|v: int|
            0 <= v < vals.numel() && #[trigger] scatter_target(v, vshape, shape, axis, idx) == p
                && e == vals.elem_at(unravel(v, vshape))
    } else {
        e == x.elem_at(unravel(p, shape))
    }
}

/// `last_write` names a value element written to `p`, and finds none only where none is.
proof fn lemma_last_write_sound(
    p: int,
    t: int,
    vshape: Seq<usize>,
    shape: Seq<usize>,
    axis: int,
    idx: Seq<i64>,
)
    ensures
        match last_write(p, t, vshape, shape, axis, idx) {
            Some(v) => 0 <= v < t && scatter_target(v, vshape, shape, axis, idx) == p,
            None => forall|v: int|
                0 <= v < t ==> #[trigger] scatter_target(v, vshape, shape, axis, idx) != p,
        },
    decreases t,
{
    if t > 0 {
        lemma_last_write_sound(p, t - 1, vshape, shape, axis, idx);
        if scatter_target(t - 1, vshape, shape, axis, idx) != p {
            if last_write(p, t - 1, vshape, shape, axis, idx) is None {
                assert forall|v: int| 0 <= v < t implies #[trigger] scatter_target(
                    v,
                    vshape,
                    shape,
                    axis,
                    idx,
                ) != p by {
                    if v < t - 1 {
                    }
                }
            }
        }
    }
}

/// Outcome of the checks of `scatter` (`Ok(())`: the scatter goes ahead).
pub open spec fn scatter_check(x: &HostArray, ix: &HostArray, vals: &HostArray, axis: int) -> Result<
    (),
    OpError,
> {
    if axis >= x.layout.shape@.len() {
        Err(OpError::ShapeMismatch)
    } else if ix.layout.shape@.len() != 1 {
        Err(OpError::ShapeMismatch)
    } else if ix.dtype != Dtype::Int64 {
        Err(OpError::DtypeUnsupported)
    } else if vals.dtype != x.dtype {
        Err(OpError::DtypeUnsupported)
    } else if vals.device != x.device {
        Err(OpError::DtypeUnsupported)
    } else if vals.layout.shape@.len() != x.layout.shape@.len() {
        Err(OpError::ShapeMismatch)
    } else if vals.layout.shape@ != gather_shape(x, ix, axis) {
        Err(OpError::ShapeMismatch)
    } else if !indices_in_range(index_values(ix), x.layout.shape@[axis] as int) {
        Err(OpError::ShapeMismatch)
    } else {
        Ok(())
    }
}

/// Overwriting block `p` keeps every other block.
pub(crate) proof fn lemma_write_block(before: Seq<u8>, after: Seq<u8>, p: int, size: int, n: int, elem: Seq<u8>)
    requires
        0 <= p < n,
        size >= 0,
        elem.len() == size,
        before.len() == n * size,
        after.len() == n * size,
        forall|t: int| 0 <= t < size ==> #[trigger] after[p * size + t] == elem[t],
        forall|k: int|
            0 <= k < n * size && (k < p * size || k >= p * size + size) ==> #[trigger] after[k]
                == before[k],
    ensures
        block(after, p, size) == elem,
        forall|q: int| 0 <= q < n && q != p ==> #[trigger] block(after, q, size) == block(before, q, size),
{
    assert((p + 1) * size == p * size + size && p * size >= 0) by (nonlinear_arith)
        requires
            p >= 0,
            size >= 0,
    ;
    assert((p + 1) * size <= n * size) by (nonlinear_arith)
        requires
            p + 1 <= n,
            size >= 0,
    ;
    assert(block(after, p, size) =~= elem) by {
        assert forall|t: int| 0 <= t < size implies #[trigger] block(after, p, size)[t] == elem[t] by {
            assert(after[p * size + t] == elem[t]);
        }
    }
    assert forall|q: int| 0 <= q < n && q != p implies #[trigger] block(after, q, size) == block(
        before,
        q,
        size,
    ) by {
        assert((q + 1) * size == q * size + size && q * size >= 0) by (nonlinear_arith)
            requires
                q >= 0,
                size >= 0,
        ;
        assert((q + 1) * size <= n * size) by (nonlinear_arith)
            requires
                q + 1 <= n,
                size >= 0,
        ;
        if q < p {
            assert((q + 1) * size <= p * size) by (nonlinear_arith)
                requires
                    q + 1 <= p,
                    size >= 0,
            ;
        } else {
            assert((p + 1) * size <= q * size) by (nonlinear_arith)
                requires
                    p + 1 <= q,
                    size >= 0,
            ;
        }
        assert forall|t: int| 0 <= t < size implies #[trigger] block(after, q, size)[t] == block(
            before,
            q,
            size,
        )[t] by {
            assert(after[q * size + t] == before[q * size + t]);
        }
        assert(block(after, q, size) =~= block(before, q, size));
    }
}

/// `s` is the scatter of `values` into `x` at `indices` along `axis`: a well-formed
/// row-major array of `x`'s shape whose element `p` is one of the values written
/// there, or `x`'s own element where none was.
pub open spec fn scatter_result(
    s: &HostArray,
    x: &HostArray,
    indices: &HostArray,
    values: &HostArray,
    axis: int,
) -> bool {
    &&& s.wf()
    &&& s.layout.shape@ == x.layout.shape@
    &&& s.layout.spec_is_contiguous()
    &&& s.dtype == x.dtype && s.device == x.device
    &&& forall|p: int|
        0 <= p < x.numel() ==> scatter_elem_ok(
            x,
            indices,
            values,
            axis,
            p,
            #[trigger] block(s.data@, p, x.esize()),
        )
}

/// `scatter(x, indices, values, axis)`: a row-major copy of `x` in which, for every
/// element of `values` at coordinates `c`, the element at `c` with coordinate `axis`
/// replaced by `indices[c[axis]]` receives it; where several value elements land on
/// one position, one of them stays (which one is not specified). `x` is not modified.
/// `values` must have `x`'s dtype, device and shape except that dimension `axis` has
/// one entry per index; `indices` is a 1-D int64 array of values in
/// `0..x.shape[axis]`.
pub fn scatter(x: &HostArray, indices: &HostArray, values: &HostArray, axis: usize) -> (r: Result<
    HostArray,
    OpError,
>)
    requires
        x.wf(),
        indices.wf(),
        values.wf(),
        nonzero_prod(x.layout.shape@) * x.esize() <= isize::MAX,
        values.numel() <= usize::MAX,
    ensures
        match scatter_check(x, indices, values, axis as int) {
            Err(e) => r == Err::<HostArray, OpError>(e),
            Ok(()) => r matches Ok(s) && scatter_result(&s, x, indices, values, axis as int),
        },
{
    let ndim = x.layout.shape.len();
    if axis >= ndim {
        return Err(OpError::ShapeMismatch);
    }
    if indices.layout.shape.len() != 1 {
        return Err(OpError::ShapeMismatch);
    }
    if indices.dtype != Dtype::Int64 {
        return Err(OpError::DtypeUnsupported);
    }
    if values.dtype != x.dtype {
        return Err(OpError::DtypeUnsupported);
    }
    if values.device != x.device {
        return Err(OpError::DtypeUnsupported);
    }
    if values.layout.shape.len() != ndim {
        return Err(OpError::ShapeMismatch);
    }
    let mut expected = x.layout.copy_shape();
    expected.set(axis, indices.layout.shape[0]);
    if !crate::array::same_shape(values.layout.shape.as_slice(), expected.as_slice()) {
        return Err(OpError::ShapeMismatch);
    }
    let idx = read_indices(indices);
    match check_indices_bounds(idx.as_slice(), x.layout.shape[axis]) {
        Ok(()) => {},
        Err(e) => {
            return Err(e);
        },
    }
    let shape = x.layout.copy_shape();
    let es = x.dtype.element_size();
    proof {
        lemma_nonzero_row_major_bounds(shape@, es as int);
    }
    let mut out = copy_row_major(x);
    proof {
        assert forall|pp: int| 0 <= pp < x.numel() implies #[trigger] block(out@, pp, es as int)
            == scattered_elem(x, indices, values, axis as int, 0, pp) by {}
    }
    let nx = crate::op_builder::shape_size(shape.as_slice());
    let vshape = values.layout.copy_shape();
    proof {
        assert(vshape@ == values.layout.shape@);
    }
    let nv = crate::op_builder::shape_size(vshape.as_slice());
    let mut v: usize = 0;
    while v < nv
        invariant
            x.wf(),
            values.wf(),
            ndim == x.layout.shape@.len(),
            axis < ndim,
            shape@ == x.layout.shape@,
            vshape@ == values.layout.shape@,
            values.layout.shape@ == gather_shape(x, indices, axis as int),
            values.dtype == x.dtype,
            idx@ == index_values(indices),
            indices_in_range(idx@, x.layout.shape@[axis as int] as int),
            forall|kk: int| 0 <= kk <= shape@.len() ==> #[trigger] suffix_prod(shape@, kk) <= isize::MAX,
            nx == x.numel(),
            nv == values.numel(),
            es == x.esize(),
            nx * es <= isize::MAX,
            v <= nv,
            out@.len() == nx * es,
            forall|pp: int|
                0 <= pp < nx ==> #[trigger] block(out@, pp, es as int) == scattered_elem(
                    x,
                    indices,
                    values,
                    axis as int,
                    v as int,
                    pp,
                ),
        decreases nv - v,
    {
        proof {
            lemma_seq_prod_zero(vshape@);
            assert forall|d: int| 0 <= d < vshape@.len() implies #[trigger] vshape@[d] > 0 by {
                if vshape@[d] == 0 {
                    assert(seq_prod(vshape@) == 0);
                }
            }
        }
        let c = unravel_index(v, vshape.as_slice());
        let ve = element_index(values, c.as_slice());
        let mut tc = c.clone();
        proof {
            assert(tc@ == c@);
            assert(int_coords(c@)[axis as int] == c@[axis as int] as int);
        }
        let k = idx[c[axis]];
        tc.set(axis, k as usize);
        proof {
            assert(int_coords(tc@) =~= gather_source(v as int, vshape@, axis as int, idx@));
            assert(valid_coords(int_coords(tc@), shape@)) by {
                assert forall|d: int| 0 <= d < ndim implies 0 <= #[trigger] int_coords(tc@)[d]
                    < shape@[d] by {
                    if d != axis {
                        assert(int_coords(tc@)[d] == int_coords(c@)[d]);
                    }
                }
            }
        }
        let p = row_major_position(shape.as_slice(), tc.as_slice());
        proof {
            assert(ve * es <= (ve + 1) * es && (ve + 1) * es == ve * es + es) by (nonlinear_arith)
                requires
                    es >= 0,
            ;
            assert(p * es + es <= nx * es && p * es >= 0) by (nonlinear_arith)
                requires
                    0 <= p < nx,
                    es >= 0,
            ;
        }
        let src = ve * es;
        let dst = p * es;
        let ghost before = out@;
        let ghost elem = values.elem_at(unravel(v as int, vshape@));
        let mut b: usize = 0;
        while b < es
            invariant
                values.wf(),
                es == values.esize(),
                src + es <= values.data@.len(),
                dst + es <= nx * es,
                nx * es <= isize::MAX,
                elem == values.data@.subrange(src as int, src + es),
                b <= es,
                out@.len() == nx * es,
                before.len() == nx * es,
                forall|t: int| 0 <= t < b ==> #[trigger] out@[dst + t] == elem[t],
                forall|kk: int|
                    0 <= kk < nx * es && (kk < dst || kk >= dst + b) ==> #[trigger] out@[kk]
                        == before[kk],
            decreases es - b,
        {
            out.set(dst + b, values.data[src + b]);
            b = b + 1;
        }
        proof {
            lemma_write_block(before, out@, p as int, es as int, nx as int, elem);
            assert forall|pp: int| 0 <= pp < nx implies #[trigger] block(out@, pp, es as int)
                == scattered_elem(x, indices, values, axis as int, v as int + 1, pp) by {
                if pp != p {
                    assert(block(out@, pp, es as int) == block(before, pp, es as int));
                }
            }
        }
        v = v + 1;
    }
    proof {
        assert forall|pp: int| 0 <= pp < nx implies scatter_elem_ok(
            x,
            indices,
            values,
            axis as int,
            pp,
            #[trigger] block(out@, pp, es as int),
        ) by {
            lemma_last_write_sound(pp, nv as int, vshape@, shape@, axis as int, idx@);
            match last_write(pp, nv as int, vshape@, shape@, axis as int, idx@) {
                Some(w) => {
                    assert(scatter_target(w, vshape@, shape@, axis as int, idx@) == pp);
                },
                None => {},
            }
        }
    }
    let layout = Layout::from_shape(shape);
    let s = HostArray { layout, dtype: x.dtype, device: x.device, data: Arc::new(out) };
    proof {
        lemma_row_major_wf(&s);
    }
    Ok(s)
}



// ── Scatter and gather together ────────────────────────────────

/// No index value occurs twice.
pub open spec fn distinct_indices(idx: Seq<i64>) -> bool {
    forall|j1: int, j2: int| 0 <= j1 < j2 < idx.len() ==> idx[j1] != idx[j2]
}

/// `a * p + r == b * p + q` with both remainders below `p` fixes the quotients.
proof fn lemma_quotient_unique(a: int, b: int, r: int, q: int, p: int)
    requires
        0 <= r < p,
        0 <= q < p,
        a * p + r == b * p + q,
    ensures
        a == b,
{
    if a > b {
        assert((a - b) * p >= p) by (nonlinear_arith)
            requires
                a - b >= 1,
                p > 0,
        ;
        assert(a * p - b * p == (a - b) * p) by (nonlinear_arith);
    } else if a < b {
        assert((b - a) * p >= p) by (nonlinear_arith)
            requires
                b - a >= 1,
                p > 0,
        ;
        assert(b * p - a * p == (b - a) * p) by (nonlinear_arith);
    }
}

/// Distinct coordinates of a shape have distinct row-major positions.
proof fn lemma_row_major_injective(c1: Seq<int>, c2: Seq<int>, shape: Seq<usize>, i: int)
    requires
        valid_coords(c1, shape),
        valid_coords(c2, shape),
        0 <= i <= shape.len(),
        coords_sum(c1, c_strides(shape), i) == coords_sum(c2, c_strides(shape), i),
    ensures
        forall|d: int| i <= d < shape.len() ==> c1[d] == c2[d],
    decreases shape.len() - i,
{
    if i < shape.len() {
        lemma_row_major_bound(c1, shape, i + 1);
        lemma_row_major_bound(c2, shape, i + 1);
        let p = suffix_prod(shape, i + 1);
        assert(c_strides(shape)[i] == p);
        lemma_quotient_unique(
            c1[i],
            c2[i],
            coords_sum(c1, c_strides(shape), i + 1),
            coords_sum(c2, c_strides(shape), i + 1),
            p,
        );
        lemma_row_major_injective(c1, c2, shape, i + 1);
    }
}

/// The row-major position of the `lin`-th element's coordinates, counted from
/// dimension `i`, is `lin` modulo the element count of dimensions `i..`.
pub(crate) proof fn lemma_row_major_of_unravel(lin: int, s: Seq<usize>, i: int)
    requires
        all_positive(s),
        lin >= 0,
        0 <= i <= s.len(),
    ensures
        coords_sum(unravel(lin, s), c_strides(s), i) == lin % suffix_prod(s, i),
    decreases s.len() - i,
{
    if i == s.len() {
        lemma_suffix_end(s);
    } else {
        lemma_row_major_of_unravel(lin, s, i + 1);
        lemma_suffix_step(s, i);
        lemma_suffix_positive(s, i + 1);
        let p = suffix_prod(s, i + 1);
        let d = s[i] as int;
        assert(c_strides(s)[i] == p);
        assert(unravel(lin, s)[i] == (lin / p) % d);
        vstd::arithmetic::div_mod::lemma_breakdown(lin, p, d);
        assert(p * d == d * p && ((lin / p) % d) * p == p * ((lin / p) % d)) by (nonlinear_arith);
    }
}

/// The coordinates a value element is written to lie inside the scattered array.
proof fn lemma_gather_source_valid(v: int, vshape: Seq<usize>, shape: Seq<usize>, axis: int, idx: Seq<i64>)
    requires
        0 <= v < seq_prod(vshape),
        0 <= axis < shape.len(),
        vshape == shape.update(axis, idx.len() as usize),
        indices_in_range(idx, shape[axis] as int),
    ensures
        valid_coords(unravel(v, vshape), vshape),
        valid_coords(gather_source(v, vshape, axis, idx), shape),
{
    crate::layout::lemma_all_positive(vshape);
    lemma_unravel_valid(v, vshape);
    let c = unravel(v, vshape);
    let g = gather_source(v, vshape, axis, idx);
    assert forall|d: int| 0 <= d < g.len() implies 0 <= #[trigger] g[d] < shape[d] by {
        if d == axis {
            assert(0 <= c[axis] < vshape[axis]);
            assert(0 <= idx[c[axis]] < shape[axis]);
        } else {
            assert(0 <= c[d] < vshape[d]);
        }
    }
}

/// With no index repeated, distinct value elements are written to distinct positions.
proof fn lemma_scatter_target_injective(
    o: int,
    v: int,
    vshape: Seq<usize>,
    shape: Seq<usize>,
    axis: int,
    idx: Seq<i64>,
)
    requires
        0 <= o < seq_prod(vshape),
        0 <= v < seq_prod(vshape),
        0 <= axis < shape.len(),
        vshape == shape.update(axis, idx.len() as usize),
        indices_in_range(idx, shape[axis] as int),
        distinct_indices(idx),
        scatter_target(v, vshape, shape, axis, idx) == scatter_target(o, vshape, shape, axis, idx),
    ensures
        v == o,
{
    let nv = seq_prod(vshape);
    let co = gather_source(o, vshape, axis, idx);
    let cv = gather_source(v, vshape, axis, idx);
    lemma_gather_source_valid(o, vshape, shape, axis, idx);
    lemma_gather_source_valid(v, vshape, shape, axis, idx);
    lemma_row_major_injective(cv, co, shape, 0);
    let uv = unravel(v, vshape);
    let uo = unravel(o, vshape);
    assert(uv =~= uo) by {
        assert forall|d: int| 0 <= d < vshape.len() implies uv[d] == uo[d] by {
            if d == axis {
                assert(cv[axis] == co[axis]);
                assert(0 <= uv[axis] < idx.len() && 0 <= uo[axis] < idx.len());
                if uv[axis] < uo[axis] {
                    assert(idx[uv[axis]] != idx[uo[axis]]);
                } else if uv[axis] > uo[axis] {
                    assert(idx[uo[axis]] != idx[uv[axis]]);
                }
            } else {
                assert(cv[d] == co[d]);
            }
        }
    }
    crate::layout::lemma_all_positive(vshape);
    lemma_row_major_of_unravel(v, vshape, 0);
    lemma_row_major_of_unravel(o, vshape, 0);
    lemma_suffix_full(vshape);
    vstd::arithmetic::div_mod::lemma_small_mod(v as nat, nv as nat);
    vstd::arithmetic::div_mod::lemma_small_mod(o as nat, nv as nat);
}

/// Gathering at distinct indices the array that scattering `values` at those indices
/// produced gives `values` back: for `s = scatter(x, indices, values, axis)` with no
/// index repeated, `gather(s, indices, axis)` succeeds and its element `o` is
/// `values`' element `o` in row-major order.
pub proof fn lemma_gather_after_scatter(
    x: &HostArray,
    indices: &HostArray,
    values: &HostArray,
    axis: int,
    s: &HostArray,
    g: &HostArray,
)
    requires
        x.wf(),
        indices.wf(),
        values.wf(),
        0 <= axis,
        scatter_check(x, indices, values, axis) == Ok::<(), OpError>(()),
        distinct_indices(index_values(indices)),
        scatter_result(s, x, indices, values, axis),
        gather_result(g, s, indices, axis),
    ensures
        gather_check(s, indices, axis) == Ok::<(), OpError>(()),
        g.layout.shape@ == values.layout.shape@,
        forall|o: int|
            0 <= o < values.numel() ==> #[trigger] block(g.data@, o, x.esize()) == values.elem_at(
                unravel(o, values.layout.shape@),
            ),
{
    let vshape = values.layout.shape@;
    let shape = x.layout.shape@;
    let idx = index_values(indices);
    let nv = values.numel();
    let es = x.esize();
    assert(vshape == gather_shape(s, indices, axis));
    assert(idx.len() == indices.layout.shape@[0]);
    assert forall|o: int| 0 <= o < nv implies #[trigger] block(g.data@, o, es) == values.elem_at(
        unravel(o, vshape),
    ) by {
        let co = gather_source(o, vshape, axis, idx);
        lemma_gather_source_valid(o, vshape, shape, axis, idx);
        let p = scatter_target(o, vshape, shape, axis, idx);
        lemma_row_major_bound(co, shape, 0);
        lemma_suffix_full(shape);
        assert(elem_index(s.layout, co) == p);
        assert(s.esize() == es);
        assert((p + 1) * es == p * es + es) by (nonlinear_arith);
        assert(block(g.data@, o, es) == s.elem_at(co));
        assert(s.elem_at(co) == block(s.data@, p, es));
        assert(is_scatter_target(p, nv, vshape, shape, axis, idx));
        let w = choose|w: int|
            0 <= w < nv && #[trigger] scatter_target(w, vshape, shape, axis, idx) == p
                && block(s.data@, p, es) == values.elem_at(unravel(w, vshape));
        lemma_scatter_target_injective(o, w, vshape, shape, axis, idx);
    }
}

/// Element `v` of a row-major array, read through its layout, is its `v`-th block.
proof fn lemma_contiguous_elem(a: &HostArray, v: int)
    requires
        a.layout.spec_is_contiguous(),
        0 <= v < a.numel(),
    ensures
        a.elem_at(unravel(v, a.layout.shape@)) == block(a.data@, v, a.esize()),
{
    let sh = a.layout.shape@;
    let es = a.esize();
    crate::layout::lemma_all_positive(sh);
    lemma_row_major_of_unravel(v, sh, 0);
    lemma_suffix_full(sh);
    vstd::arithmetic::div_mod::lemma_small_mod(v as nat, a.numel() as nat);
    assert(elem_index(a.layout, unravel(v, sh)) == v);
    assert((v + 1) * es == v * es + es) by (nonlinear_arith);
}

/// Scattering back what a gather took out leaves the array as it was: for
/// `g = gather(x, indices, axis)`, `scatter(x, indices, g, axis)` passes its checks, and
/// every element of its result equals `x`'s element at the same coordinates, repeated
/// indices included.
pub proof fn lemma_scatter_of_gather(
    x: &HostArray,
    indices: &HostArray,
    axis: int,
    g: &HostArray,
    s: &HostArray,
)
    requires
        x.wf(),
        indices.wf(),
        0 <= axis,
        gather_check(x, indices, axis) == Ok::<(), OpError>(()),
        gather_result(g, x, indices, axis),
    ensures
        scatter_check(x, indices, g, axis) == Ok::<(), OpError>(()),
        scatter_result(s, x, indices, g, axis) ==> forall|p: int|
            0 <= p < x.numel() ==> #[trigger] block(s.data@, p, x.esize()) == x.elem_at(
                unravel(p, x.layout.shape@),
            ),
{
    let shape = x.layout.shape@;
    let gshape = g.layout.shape@;
    let idx = index_values(indices);
    let es = x.esize();
    let nv = g.numel();
    assert(idx.len() == indices.layout.shape@[0]);
    assert(gshape.len() == shape.len());
    if scatter_result(s, x, indices, g, axis) {
        assert forall|p: int| 0 <= p < x.numel() implies #[trigger] block(s.data@, p, es)
            == x.elem_at(unravel(p, shape)) by {
            assert(scatter_elem_ok(x, indices, g, axis, p, block(s.data@, p, es)));
            if is_scatter_target(p, nv, gshape, shape, axis, idx) {
                let v = choose|v: int|
                    0 <= v < nv && #[trigger] scatter_target(v, gshape, shape, axis, idx) == p
                        && block(s.data@, p, es) == g.elem_at(unravel(v, gshape));
                lemma_contiguous_elem(g, v);
                assert(block(g.data@, v, es) == x.elem_at(gather_source(v, gshape, axis, idx)));
                let cv = gather_source(v, gshape, axis, idx);
                let cp = unravel(p, shape);
                lemma_gather_source_valid(v, gshape, shape, axis, idx);
                crate::layout::lemma_all_positive(shape);
                lemma_unravel_valid(p, shape);
                lemma_row_major_of_unravel(p, shape, 0);
                lemma_suffix_full(shape);
                vstd::arithmetic::div_mod::lemma_small_mod(p as nat, x.numel() as nat);
                lemma_row_major_injective(cv, cp, shape, 0);
                assert(cv =~= cp);
            }
        }
    }
}


// ── Advanced indexing ──────────────────────────────────────────

/// Number of elements of a broadcast index shape.
pub fn b_shape_size(b_shape: &[usize]) -> (r: usize)
    requires
        seq_prod(b_shape@) <= usize::MAX,
    ensures
        r == seq_prod(b_shape@),
{
    crate::op_builder::shape_size(b_shape)
}

/// The entries of an int64 index array of any rank, in row-major order.
pub open spec fn flat_index_values(ix: &HostArray) -> Seq<i64> {
    Seq::new(
        seq_prod(ix.layout.shape@) as nat,
        |j: int|
            vstd::bytes::spec_u64_from_le_bytes(ix.elem_at(unravel(j, ix.layout.shape@))) as i64,
    )
}

/// Reads the entries of an int64 index array in row-major order.
fn read_all_indices(ix: &HostArray) -> (r: Vec<i64>)
    requires
        ix.wf(),
        ix.dtype == Dtype::Int64,
        seq_prod(ix.layout.shape@) <= usize::MAX,
    ensures
        r@ == flat_index_values(ix),
{
    let shape = ix.layout.copy_shape();
    let n = crate::op_builder::shape_size(shape.as_slice());
    let mut r: Vec<i64> = Vec::new();
    let mut j: usize = 0;
    while j < n
        invariant
            ix.wf(),
            ix.dtype == Dtype::Int64,
            shape@ == ix.layout.shape@,
            n == seq_prod(shape@),
            j <= n,
            r@.len() == j,
            forall|t: int| 0 <= t < j ==> #[trigger] r@[t] == flat_index_values(ix)[t],
        decreases n - j,
    {
        proof {
            lemma_seq_prod_zero(shape@);
            assert forall|d: int| 0 <= d < shape@.len() implies #[trigger] shape@[d] > 0 by {
                if shape@[d] == 0 {
                    assert(seq_prod(shape@) == 0);
                }
            }
        }
        let c = unravel_index(j, shape.as_slice());
        let e = element_index(ix, c.as_slice());
        assert(ix.esize() == 8);
        let start = e * 8;
        let mut bytes: Vec<u8> = Vec::new();
        let mut b: usize = 0;
        while b < 8
            invariant
                ix.wf(),
                start + 8 <= ix.data@.len(),
                b <= 8,
                bytes@ == ix.data@.subrange(start as int, start + b),
            decreases 8 - b,
        {
            bytes.push(ix.data[start + b]);
            assert(bytes@ =~= ix.data@.subrange(start as int, start + b + 1));
            b = b + 1;
        }
        let v = vstd::bytes::u64_from_le_bytes(bytes.as_slice());
        assert(bytes@ == ix.elem_at(unravel(j as int, shape@)));
        r.push(v as i64);
        j = j + 1;
    }
    assert(r@ =~= flat_index_values(ix));
    r
}

/// The coordinates in an index array of shape `s` that output coordinates `c` read
/// (NumPy broadcasting): the leading coordinates of `c` (those of the broadcast shape
/// `bshape`) aligned at the last dimension of `s`, a dimension of size 1 read at 0.
pub open spec fn adv_local(c: Seq<int>, bshape: Seq<usize>, s: Seq<usize>) -> Seq<int> {
    Seq::new(s.len(), |d: int| if s[d] == 1 { 0 } else { c[bshape.len() - s.len() + d] })
}

/// Which entry (in row-major order) of an index array of shape `s` output
/// coordinates `c` read.
pub open spec fn adv_pick(c: Seq<int>, bshape: Seq<usize>, s: Seq<usize>) -> int {
    coords_sum(adv_local(c, bshape, s), c_strides(s), 0)
}

/// Index arrays of the broadcast shape itself are read at the output's own leading
/// coordinates: output element `(p.., q..)` takes its first `k` source coordinates
/// from entry `p..` of each index array.
pub proof fn lemma_adv_same_shape(c: Seq<int>, b: Seq<usize>, rest: Seq<usize>)
    requires
        valid_coords(c, b + rest),
    ensures
        adv_local(c, b, b) == c.take(b.len() as int),
        adv_pick(c, b, b) == coords_sum(c.take(b.len() as int), c_strides(b), 0),
{
    assert forall|d: int| 0 <= d < b.len() implies adv_local(c, b, b)[d] == c.take(b.len() as int)[d] by {
        assert((b + rest)[d] == b[d]);
    }
    assert(adv_local(c, b, b) =~= c.take(b.len() as int));
}

/// A possibly negative index counted from the end of an axis of length `axis_len`.
pub open spec fn adv_normalize(raw: i64, axis_len: int) -> int {
    if raw < 0 {
        raw + axis_len
    } else {
        raw as int
    }
}

/// Index `i`'s value for output element `o`.
pub open spec fn adv_raw(
    o: int,
    i: int,
    out_shape: Seq<usize>,
    bshape: Seq<usize>,
    shapes: Seq<Seq<usize>>,
    idxs: Seq<Seq<i64>>,
) -> i64 {
    idxs[i][adv_pick(unravel(o, out_shape), bshape, shapes[i])]
}

/// The coordinates in `a` that output element `o` copies: the normalized index
/// values for the first `k` dimensions, then the remaining output coordinates.
pub open spec fn adv_source(
    o: int,
    out_shape: Seq<usize>,
    bshape: Seq<usize>,
    shapes: Seq<Seq<usize>>,
    idxs: Seq<Seq<i64>>,
    a_shape: Seq<usize>,
) -> Seq<int> {
    let k = idxs.len() as int;
    let c = unravel(o, out_shape);
    Seq::new(
        a_shape.len(),
        |d: int|
            if d < k {
                adv_normalize(adv_raw(o, d, out_shape, bshape, shapes, idxs), a_shape[d] as int)
            } else {
                c[bshape.len() + d - k]
            },
    )
}

/// Every index value output element `o` uses is within its axis.
pub open spec fn adv_in_bounds(
    o: int,
    out_shape: Seq<usize>,
    bshape: Seq<usize>,
    shapes: Seq<Seq<usize>>,
    idxs: Seq<Seq<i64>>,
    a_shape: Seq<usize>,
) -> bool {
    forall|i: int|
        0 <= i < idxs.len() ==> 0 <= #[trigger] adv_normalize(
            adv_raw(o, i, out_shape, bshape, shapes, idxs),
            a_shape[i] as int,
        ) < a_shape[i]
}

/// Every output element's index values are within their axes.
pub open spec fn adv_all_in_bounds(
    out_shape: Seq<usize>,
    bshape: Seq<usize>,
    shapes: Seq<Seq<usize>>,
    idxs: Seq<Seq<i64>>,
    a_shape: Seq<usize>,
) -> bool {
    forall|o: int|
        0 <= o < seq_prod(out_shape) ==> #[trigger] adv_in_bounds(o, out_shape, bshape, shapes, idxs, a_shape)
}

/// The index arrays' shapes.
pub open spec fn index_shapes(indices: Seq<&HostArray>) -> Seq<Seq<usize>> {
    Seq::new(indices.len(), |i: int| indices[i].layout.shape@)
}

/// The index arrays' entries.
pub open spec fn index_lists(indices: Seq<&HostArray>) -> Seq<Seq<i64>> {
    Seq::new(indices.len(), |i: int| flat_index_values(indices[i]))
}

/// The checks of `adv_index` before any index value is read, in order: at least one
/// and at most `ndim` index arrays, each int64 and on `a`'s device (checked array by
/// array), and index shapes that broadcast together. `Ok` carries the broadcast
/// shape.
pub open spec fn adv_check(a: &HostArray, indices: Seq<&HostArray>) -> Result<Seq<usize>, OpError> {
    if indices.len() == 0 || indices.len() > a.layout.shape@.len() {
        Err(OpError::ShapeMismatch)
    } else if exists|i: int|
        0 <= i < indices.len() && (indices[i].dtype != Dtype::Int64 || indices[i].device
            != a.device) {
        let i = choose|i: int|
            0 <= i < indices.len() && (indices[i].dtype != Dtype::Int64 || indices[i].device
                != a.device) && forall|j: int|
                0 <= j < i ==> indices[j].dtype == Dtype::Int64 && indices[j].device == a.device;
        if indices[i].dtype != Dtype::Int64 {
            Err(OpError::DtypeUnsupported)
        } else {
            Err(OpError::ShapeMismatch)
        }
    } else {
        match spec_broadcast_shape(index_shapes(indices)) {
            None => Err(OpError::ShapeMismatch),
            Some(b) => Ok(b),
        }
    }
}

/// The output shape of `adv_index`: the broadcast index shape, then `a`'s dimensions
/// after the indexed ones.
pub open spec fn adv_out_shape(a: &HostArray, k: int, bshape: Seq<usize>) -> Seq<usize> {
    bshape + a.layout.shape@.skip(k)
}



/// Whether every index array is int64 and on `a`'s device; `Err` for the first that
/// is not.
fn check_index_arrays(a: &HostArray, indices: &[&HostArray]) -> (r: Result<(), OpError>)
    ensures
        (forall|i: int|
            0 <= i < indices@.len() ==> indices@[i].dtype == Dtype::Int64 && indices@[i].device
                == a.device) ==> r == Ok::<(), OpError>(()),
        !(forall|i: int|
            0 <= i < indices@.len() ==> indices@[i].dtype == Dtype::Int64 && indices@[i].device
                == a.device) ==> r is Err && {
            let i = choose|i: int|
                0 <= i < indices@.len() && (indices@[i].dtype != Dtype::Int64 || indices@[i].device
                    != a.device) && forall|j: int|
                    0 <= j < i ==> indices@[j].dtype == Dtype::Int64 && indices@[j].device
                        == a.device;
            r == Err::<(), OpError>(
                if indices@[i].dtype != Dtype::Int64 {
                    OpError::DtypeUnsupported
                } else {
                    OpError::ShapeMismatch
                },
            )
        },
{
    let mut i: usize = 0;
    while i < indices.len()
        invariant
            i <= indices@.len(),
            forall|j: int|
                0 <= j < i ==> indices@[j].dtype == Dtype::Int64 && indices@[j].device == a.device,
        decreases indices.len() - i,
    {
        let bad_dtype = indices[i].dtype != Dtype::Int64;
        let bad_device = indices[i].device != a.device;
        if bad_dtype || bad_device {
            proof {
                let w = choose|w: int|
                    0 <= w < indices@.len() && (indices@[w].dtype != Dtype::Int64
                        || indices@[w].device != a.device) && forall|j: int|
                        0 <= j < w ==> indices@[j].dtype == Dtype::Int64 && indices@[j].device
                            == a.device;
                assert(0 <= i < indices@.len() && (indices@[i as int].dtype != Dtype::Int64
                    || indices@[i as int].device != a.device) && forall|j: int|
                    0 <= j < i ==> indices@[j].dtype == Dtype::Int64 && indices@[j].device
                        == a.device);
                if w < i {
                    assert(indices@[w].dtype == Dtype::Int64 && indices@[w].device == a.device);
                }
                if w > i {
                    assert(indices@[i as int].dtype == Dtype::Int64 && indices@[i as int].device
                        == a.device);
                }
                assert(w == i);
            }
            if bad_dtype {
                return Err(OpError::DtypeUnsupported);
            }
            return Err(OpError::ShapeMismatch);
        }
        i = i + 1;
    }
    Ok(())
}

/// `adv_index(a, indices)` (NumPy advanced indexing with `k` int64 index arrays for
/// the first `k` dimensions): the index shapes broadcast to `b`; the result has shape
/// `b` followed by `a`'s remaining dimensions. Output element `o` copies the element
/// of `a` whose first `k` coordinates are the index values it picks, each index array
/// read at `o`'s leading coordinates aligned at its last dimension with its size-1
/// dimensions broadcast (negative values count from the end of their axis) and whose other coordinates are `o`'s remaining
/// coordinates. An index value outside its axis is `IndexOutOfBounds`.
#[verifier::spinoff_prover]
pub fn adv_index(a: &HostArray, indices: &[&HostArray]) -> (r: Result<HostArray, OpError>)
    requires
        a.wf(),
        forall|i: int|
            0 <= i < indices@.len() ==> (#[trigger] indices@[i]).wf() && seq_prod(
                indices@[i].layout.shape@,
            ) <= usize::MAX,
        adv_check(a, indices@) matches Ok(b) ==> nonzero_prod(
            adv_out_shape(a, indices@.len() as int, b),
        ) * a.esize() <= isize::MAX,
    ensures
        match adv_check(a, indices@) {
            Err(e) => r == Err::<HostArray, OpError>(e),
            Ok(b) => {
                let out = adv_out_shape(a, indices@.len() as int, b);
                let ishapes = index_shapes(indices@);
                let idxs = index_lists(indices@);
                if !adv_all_in_bounds(out, b, ishapes, idxs, a.layout.shape@) {
                    r == Err::<HostArray, OpError>(OpError::IndexOutOfBounds)
                } else {
                    r matches Ok(g) && {
                        &&& g.wf()
                        &&& g.layout.shape@ == out
                        &&& g.layout.spec_is_contiguous()
                        &&& g.dtype == a.dtype && g.device == a.device
                        &&& forall|o: int|
                            0 <= o < seq_prod(out) ==> #[trigger] block(g.data@, o, a.esize())
                                == a.elem_at(adv_source(o, out, b, ishapes, idxs, a.layout.shape@))
                    }
                }
            },
        },
{
    let k = indices.len();
    let ndim = a.layout.shape.len();
    if k == 0 || k > ndim {
        return Err(OpError::ShapeMismatch);
    }
    match check_index_arrays(a, indices) {
        Ok(()) => {},
        Err(e) => {
            return Err(e);
        },
    }
    let mut shapes: Vec<Vec<usize>> = Vec::new();
    let mut t: usize = 0;
    while t < k
        invariant
            k == indices@.len(),
            t <= k,
            shapes@.len() == t,
            forall|j: int| 0 <= j < t ==> #[trigger] shapes@[j]@ == indices@[j].layout.shape@,
        decreases k - t,
    {
        shapes.push(indices[t].layout.copy_shape());
        t = t + 1;
    }
    proof {
        assert(shape_views(shapes@) =~= index_shapes(indices@));
    }
    let b_shape = match broadcast_shape(shapes.as_slice()) {
        Ok(v) => v,
        Err(e) => {
            return Err(e);
        },
    };
    let ghost b = b_shape@;
    assert(adv_check(a, indices@) == Ok::<Seq<usize>, OpError>(b));
    let bdims = b_shape.len();
    let mut out_shape: Vec<usize> = Vec::new();
    let mut q: usize = 0;
    while q < bdims
        invariant
            bdims == b_shape@.len(),
            q <= bdims,
            out_shape@ == b_shape@.take(q as int),
        decreases bdims - q,
    {
        out_shape.push(b_shape[q]);
        assert(out_shape@ =~= b_shape@.take(q as int + 1));
        q = q + 1;
    }
    let mut d: usize = k;
    while d < ndim
        invariant
            bdims == b_shape@.len(),
            k <= d <= ndim,
            ndim == a.layout.shape@.len(),
            out_shape@ == b_shape@ + a.layout.shape@.subrange(k as int, d as int),
        decreases ndim - d,
    {
        out_shape.push(a.layout.shape[d]);
        assert(out_shape@ =~= b_shape@ + a.layout.shape@.subrange(k as int, d as int + 1));
        d = d + 1;
    }
    let ghost out = out_shape@;
    proof {
        assert(b_shape@.take(bdims as int) =~= b_shape@);
        assert(out =~= adv_out_shape(a, k as int, b));
    }
    let mut lists: Vec<Vec<i64>> = Vec::new();
    let mut u: usize = 0;
    while u < k
        invariant
            k == indices@.len(),
            u <= k,
            forall|i: int|
                0 <= i < indices@.len() ==> (#[trigger] indices@[i]).wf() && seq_prod(
                    indices@[i].layout.shape@,
                ) <= usize::MAX,
            forall|i: int| 0 <= i < k ==> #[trigger] indices@[i].dtype == Dtype::Int64,
            lists@.len() == u,
            forall|j: int| 0 <= j < u ==> #[trigger] lists@[j]@ == index_lists(indices@)[j],
        decreases k - u,
    {
        assert(indices@[u as int].wf());
        lists.push(read_all_indices(indices[u]));
        u = u + 1;
    }
    let ghost idxs = index_lists(indices@);
    let ghost ishapes = index_shapes(indices@);
    let es = a.dtype.element_size();
    proof {
        crate::broadcast::lemma_broadcast_covers_inputs(ishapes);
        assert forall|i: int| 0 <= i < k implies #[trigger] idxs[i].len() == seq_prod(ishapes[i]) by {
            crate::layout::lemma_seq_prod_nonneg(ishapes[i]);
        }
        let rest = a.layout.shape@.skip(k as int);
        crate::layout::lemma_nonzero_prod_concat(b, rest);
        lemma_nonzero_prod_pos(b);
        lemma_nonzero_prod_pos(rest);
        lemma_prod_le_nonzero_prod(b);
        lemma_prod_le_nonzero_prod(out);
        crate::layout::lemma_seq_prod_nonneg(out);
        crate::layout::lemma_seq_prod_nonneg(b);
        let x = nonzero_prod(b);
        let y = nonzero_prod(rest);
        let z = nonzero_prod(out);
        assert(x <= x * y) by (nonlinear_arith)
            requires
                x >= 1,
                y >= 1,
        ;
        assert(z <= z * es && seq_prod(out) * es <= z * es) by (nonlinear_arith)
            requires
                es >= 1,
                z >= 1,
                0 <= seq_prod(out) <= z,
        ;
    }
    let n = crate::op_builder::shape_size(out_shape.as_slice());
    let mut data: Vec<u8> = Vec::new();
    let mut o: usize = 0;
    while o < n
        invariant
            a.wf(),
            adv_check(a, indices@) == Ok::<Seq<usize>, OpError>(b),
            k == indices@.len(),
            0 < k <= ndim,
            ndim == a.layout.shape@.len(),
            out_shape@ == out,
            out == adv_out_shape(a, k as int, b),
            b == b_shape@,
            bdims == b.len(),
            idxs == index_lists(indices@),
            idxs.len() == k,
            ishapes == index_shapes(indices@),
            forall|i: int| 0 <= i < k ==> #[trigger] idxs[i].len() == seq_prod(ishapes[i]),
            forall|i: int| 0 <= i < k ==> #[trigger] seq_prod(ishapes[i]) <= usize::MAX,
            forall|i: int| 0 <= i < k ==> #[trigger] ishapes[i].len() <= bdims,
            forall|i: int, j: int|
                0 <= i < k && 0 <= j < bdims ==> #[trigger] pad_left(ishapes[i], bdims as nat)[j]
                    == 1 || pad_left(ishapes[i], bdims as nat)[j] == b[j],
            lists@.len() == k,
            forall|j: int| 0 <= j < k ==> #[trigger] lists@[j]@ == idxs[j],
            n == seq_prod(out),
            es == a.esize(),
            n * es <= isize::MAX,
            seq_prod(b) <= usize::MAX,
            o <= n,
            data@.len() == o * es,
            forall|j: int| 0 <= j < o ==> adv_in_bounds(j, out, b, ishapes, idxs, a.layout.shape@),
            forall|j: int|
                0 <= j < o ==> #[trigger] block(data@, j, es as int) == a.elem_at(
                    adv_source(j, out, b, ishapes, idxs, a.layout.shape@),
                ),
        decreases n - o,
    {
        proof {
            crate::layout::lemma_all_positive(out);
        }
        let c = unravel_index(o, out_shape.as_slice());
        let ghost cs = unravel(o as int, out);
        proof {
            assert(valid_coords(cs, out));
            assert forall|j: int| 0 <= j < bdims implies 0 <= #[trigger] c@[j] < b[j] by {
                assert(int_coords(c@)[j] == cs[j]);
                assert(out[j] == b[j]);
            }
        }
        let mut src: Vec<usize> = Vec::new();
        let mut i: usize = 0;
        while i < k
            invariant
                a.wf(),
                adv_check(a, indices@) == Ok::<Seq<usize>, OpError>(b),
                out == adv_out_shape(a, k as int, b),
                k == indices@.len(),
                k <= ndim,
                ndim == a.layout.shape@.len(),
                lists@.len() == k,
                forall|j: int| 0 <= j < k ==> #[trigger] lists@[j]@ == idxs[j],
                0 <= o < seq_prod(out),
                cs == unravel(o as int, out),
                int_coords(c@) == cs,
                forall|j: int| 0 <= j < bdims ==> 0 <= #[trigger] c@[j] < b[j],
                b == b_shape@,
                idxs == index_lists(indices@),
                idxs.len() == k,
                ishapes == index_shapes(indices@),
                forall|i2: int| 0 <= i2 < k ==> #[trigger] idxs[i2].len() == seq_prod(ishapes[i2]),
                forall|i2: int| 0 <= i2 < k ==> #[trigger] seq_prod(ishapes[i2]) <= usize::MAX,
                forall|i2: int| 0 <= i2 < k ==> #[trigger] ishapes[i2].len() <= bdims,
                forall|i2: int, j: int|
                    0 <= i2 < k && 0 <= j < bdims ==> #[trigger] pad_left(ishapes[i2], bdims as nat)[j]
                        == 1 || pad_left(ishapes[i2], bdims as nat)[j] == b[j],
                bdims == b.len(),
                c@.len() == out.len(),
                i <= k,
                src@.len() == i,
                forall|j: int| 0 <= j < i ==> 0 <= #[trigger] adv_normalize(
                    adv_raw(o as int, j, out, b, ishapes, idxs),
                    a.layout.shape@[j] as int,
                ) < a.layout.shape@[j],
                forall|j: int|
                    0 <= j < i ==> #[trigger] src@[j] as int == adv_normalize(
                        adv_raw(o as int, j, out, b, ishapes, idxs),
                        a.layout.shape@[j] as int,
                    ),
            decreases k - i,
        {
            let list = &lists[i];
            proof {
                let _ = adv_raw(o as int, i as int, out, b, ishapes, idxs);
                assert(list@ == idxs[i as int]);
            }
            proof {
                assert(ishapes[i as int] == indices@[i as int].layout.shape@);
                assert(out.len() >= bdims);
            }
            let raw = adv_pick_value(
                list,
                indices[i].layout.shape.as_slice(),
                bdims,
                c.as_slice(),
                Ghost(b),
            );
            let axlen = a.layout.shape[i];
            let norm: i128 = if raw < 0 {
                raw as i128 + axlen as i128
            } else {
                raw as i128
            };
            proof {
                assert(raw == adv_raw(o as int, i as int, out, b, ishapes, idxs));
                assert(norm == adv_normalize(raw, axlen as int));
            }
            if norm < 0 || norm >= axlen as i128 {
                proof {
                    assert(!(0 <= adv_normalize(adv_raw(o as int, i as int, out, b, ishapes, idxs), a.layout.shape@[i as int] as int) < a.layout.shape@[i as int]));
                    assert(!adv_in_bounds(o as int, out, b, ishapes, idxs, a.layout.shape@));
                    assert(!adv_all_in_bounds(out, b, ishapes, idxs, a.layout.shape@));
                }
                return Err(OpError::IndexOutOfBounds);
            }
            src.push(norm as usize);
            i = i + 1;
        }
        let clen = c.len();
        let mut dd: usize = k;
        while dd < ndim
            invariant
                k <= dd <= ndim,
                clen == c@.len(),
                ndim == a.layout.shape@.len(),
                src@.len() == dd,
                c@.len() == out.len(),
                out == b + a.layout.shape@.skip(k as int),
                bdims == b.len(),
                int_coords(c@) == cs,
                forall|j: int| k <= j < dd ==> #[trigger] src@[j] as int == cs[bdims + j - k],
                forall|j: int| k <= j < dd ==> #[trigger] src@[j] < a.layout.shape@[j],
                valid_coords(cs, out),
                forall|j: int|
                    0 <= j < k ==> #[trigger] src@[j] as int == adv_normalize(
                        adv_raw(o as int, j, out, b, ishapes, idxs),
                        a.layout.shape@[j] as int,
                    ),
                forall|j: int| 0 <= j < k ==> #[trigger] src@[j] < a.layout.shape@[j],
            decreases ndim - dd,
        {
            proof {
                assert(out.len() == bdims + ndim - k);
                assert(out[bdims + dd - k] == a.layout.shape@[dd as int]);
                assert(0 <= cs[bdims + dd - k] < out[bdims + dd - k]);
            }
            src.push(c[bdims + (dd - k)]);
            dd = dd + 1;
        }
        proof {
            assert(int_coords(src@) =~= adv_source(o as int, out, b, ishapes, idxs, a.layout.shape@));
            assert(valid_coords(int_coords(src@), a.layout.shape@));
            assert(adv_in_bounds(o as int, out, b, ishapes, idxs, a.layout.shape@));
        }
        let e = element_index(a, src.as_slice());
        proof {
            assert(e * es <= (e + 1) * es && (e + 1) * es == e * es + es) by (nonlinear_arith)
                requires
                    es >= 0,
            ;
        }
        let start = e * es;
        let ghost before = data@;
        let mut bb: usize = 0;
        while bb < es
            invariant
                a.wf(),
                es == a.esize(),
                start + es <= a.data@.len(),
                bb <= es,
                data@.len() == o * es + bb,
                data@.subrange(0, o * es) == before,
                before.len() == o * es,
                forall|x: int| 0 <= x < bb ==> #[trigger] data@[o * es + x] == a.data@[start + x],
            decreases es - bb,
        {
            data.push(a.data[start + bb]);
            assert(data@.subrange(0, o * es) =~= before);
            bb = bb + 1;
        }
        proof {
            lemma_append_block(before, data@, o as int, es as int, a.elem_at(
                adv_source(o as int, out, b, ishapes, idxs, a.layout.shape@),
            ), a.data@, start as int);
            assert((o + 1) * es <= n * es) by (nonlinear_arith)
                requires
                    o + 1 <= n,
                    es >= 0,
            ;
        }
        o = o + 1;
    }
    proof {
        assert forall|kk: int| 0 <= kk <= out.len() implies #[trigger] suffix_prod(out, kk)
            <= isize::MAX by {
            crate::layout::lemma_nonzero_prod_suffix(out, kk);
            lemma_prod_le_nonzero_prod(out.subrange(kk, out.len() as int));
        }
    }
    let layout = Layout::from_shape(out_shape);
    let g = HostArray { layout, dtype: a.dtype, device: a.device, data: Arc::new(data) };
    proof {
        lemma_row_major_wf(&g);
    }
    Ok(g)
}


/// The entry of an index array of shape `ishape` (entries `list`, row-major) that
/// output coordinates `c` read, under the broadcast shape `bshape` of `bdims`
/// dimensions.
fn adv_pick_value(
    list: &Vec<i64>,
    ishape: &[usize],
    bdims: usize,
    c: &[usize],
    Ghost(bshape): Ghost<Seq<usize>>,
) -> (r: i64)
    requires
        bdims == bshape.len(),
        ishape@.len() <= bdims <= c@.len(),
        seq_prod(ishape@) <= usize::MAX,
        list@.len() == seq_prod(ishape@),
        forall|j: int| 0 <= j < bdims ==> 0 <= #[trigger] c@[j] < bshape[j],
        forall|j: int|
            0 <= j < bdims ==> #[trigger] pad_left(ishape@, bdims as nat)[j] == 1 || pad_left(
                ishape@,
                bdims as nat,
            )[j] == bshape[j],
    ensures
        r == list@[adv_pick(int_coords(c@), bshape, ishape@)],
{
    let slen = ishape.len();
    let off = bdims - slen;
    let mut local: Vec<usize> = Vec::new();
    let mut d: usize = 0;
    while d < slen
        invariant
            slen == ishape@.len(),
            off == bdims - slen,
            bdims == bshape.len(),
            bdims <= c@.len(),
            d <= slen,
            local@.len() == d,
            forall|j: int| 0 <= j < bdims ==> 0 <= #[trigger] c@[j] < bshape[j],
            forall|j: int|
                0 <= j < bdims ==> #[trigger] pad_left(ishape@, bdims as nat)[j] == 1 || pad_left(
                    ishape@,
                    bdims as nat,
                )[j] == bshape[j],
            forall|j: int| 0 <= j < d ==> #[trigger] local@[j] as int == adv_local(
                int_coords(c@),
                bshape,
                ishape@,
            )[j],
            forall|j: int| 0 <= j < d ==> #[trigger] local@[j] < ishape@[j],
        decreases slen - d,
    {
        if ishape[d] == 1 {
            local.push(0);
        } else {
            proof {
                let j = off + d;
                assert(pad_left(ishape@, bdims as nat)[j] == ishape@[d as int]);
                assert(0 <= c@[j] < bshape[j]);
            }
            local.push(c[off + d]);
        }
        d = d + 1;
    }
    proof {
        assert(int_coords(local@) =~= adv_local(int_coords(c@), bshape, ishape@));
        assert(valid_coords(int_coords(local@), ishape@));
    }
    let pos = row_major_position(ishape, local.as_slice());
    list[pos]
}

// ── Boolean masks ──────────────────────────────────────────────

/// Whether the mask element at row-major position `j` is set (a non-zero byte).
pub open spec fn mask_bit(mask: &HostArray, j: int) -> bool {
    mask.elem_at(unravel(j, mask.layout.shape@))[0] != 0
}

/// The row-major positions below `n` of the set mask elements, in increasing order.
pub open spec fn true_positions(mask: &HostArray, n: int) -> Seq<int>
    decreases n,
{
    if n <= 0 {
        Seq::empty()
    } else {
        let p = true_positions(mask, n - 1);
        if mask_bit(mask, n - 1) {
            p.push(n - 1)
        } else {
            p
        }
    }
}

/// Every position collected below `n` lies in `0..n`, and there are at most `n`.
proof fn lemma_true_positions_bound(mask: &HostArray, n: int)
    requires
        n >= 0,
    ensures
        true_positions(mask, n).len() <= n,
        forall|t: int|
            0 <= t < true_positions(mask, n).len() ==> 0 <= #[trigger] true_positions(mask, n)[t]
                < n,
    decreases n,
{
    if n > 0 {
        lemma_true_positions_bound(mask, n - 1);
    }
}

/// Some mask dimension is neither 1 nor `a`'s.
pub open spec fn mask_dims_mismatch(a: &HostArray, mask: &HostArray) -> bool {
    exists|d: int|
        0 <= d < mask.layout.shape@.len() && mask.layout.shape@[d] != 1 && mask.layout.shape@[d]
            != a.layout.shape@[d]
}

/// The checks of `boolean_mask`, in order: a bool mask, on `a`'s device, with at most
/// `a`'s rank, each dimension 1 or equal to `a`'s, and at least one dimension.
pub open spec fn mask_check(a: &HostArray, mask: &HostArray) -> Result<(), OpError> {
    let md = mask.layout.shape@.len();
    if mask.dtype != Dtype::Bool {
        Err(OpError::DtypeUnsupported)
    } else if mask.device != a.device {
        Err(OpError::ShapeMismatch)
    } else if md > a.layout.shape@.len() {
        Err(OpError::ShapeMismatch)
    } else if mask_dims_mismatch(a, mask) {
        Err(OpError::ShapeMismatch)
    } else if md == 0 {
        Err(OpError::ShapeMismatch)
    } else {
        Ok(())
    }
}

/// The output shape of `boolean_mask`: the number of set mask elements, then `a`'s
/// dimensions after the masked ones.
pub open spec fn mask_out_shape(a: &HostArray, mask: &HostArray) -> Seq<usize> {
    seq![true_positions(mask, mask.numel()).len() as usize] + a.layout.shape@.skip(
        mask.layout.shape@.len() as int,
    )
}

/// The coordinates in `a` that output element `o` copies: those of the set mask
/// element its first coordinate counts, then its remaining coordinates.
pub open spec fn mask_source(o: int, out: Seq<usize>, mask: &HostArray) -> Seq<int> {
    let c = unravel(o, out);
    unravel(true_positions(mask, mask.numel())[c[0]], mask.layout.shape@) + c.skip(1)
}

/// Every output element's source coordinates lie inside `a`.
pub open spec fn mask_all_in_bounds(a: &HostArray, mask: &HostArray, out: Seq<usize>) -> bool {
    forall|o: int|
        0 <= o < seq_prod(out) ==> #[trigger] valid_coords(
            mask_source(o, out, mask),
            a.layout.shape@,
        )
}

/// The row-major positions of the set elements of a bool mask.
#[verifier::spinoff_prover]
fn collect_true_positions(mask: &HostArray) -> (r: Vec<usize>)
    requires
        mask.wf(),
        mask.dtype == Dtype::Bool,
        mask.numel() <= usize::MAX,
    ensures
        r@.len() == true_positions(mask, mask.numel()).len(),
        forall|t: int|
            0 <= t < r@.len() ==> #[trigger] r@[t] as int == true_positions(mask, mask.numel())[t],
{
    let mshape = mask.layout.copy_shape();
    let nm = crate::op_builder::shape_size(mshape.as_slice());
    let mut pos: Vec<usize> = Vec::new();
    let mut j: usize = 0;
    while j < nm
        invariant
            mask.wf(),
            mask.dtype == Dtype::Bool,
            mshape@ == mask.layout.shape@,
            nm == seq_prod(mshape@),
            j <= nm,
            pos@.len() == true_positions(mask, j as int).len(),
            forall|t: int|
                0 <= t < pos@.len() ==> #[trigger] pos@[t] as int == true_positions(
                    mask,
                    j as int,
                )[t],
        decreases nm - j,
    {
        proof {
            crate::layout::lemma_all_positive(mshape@);
        }
        let c = unravel_index(j, mshape.as_slice());
        let e = element_index(mask, c.as_slice());
        assert(mask.esize() == 1);
        assert((e + 1) * 1 == e + 1 && e * 1 == e);
        let set = mask.data[e] != 0;
        proof {
            assert(int_coords(c@) == unravel(j as int, mshape@));
            assert(e == elem_index(mask.layout, unravel(j as int, mshape@)));
            assert(mask.elem_at(unravel(j as int, mshape@)) == mask.data@.subrange(e as int, e + 1));
            assert(mask.elem_at(unravel(j as int, mshape@))[0] == mask.data@[e as int]);
            assert(set == mask_bit(mask, j as int));
        }
        if set {
            pos.push(j);
        }
        j = j + 1;
    }
    pos
}

/// `boolean_mask(a, mask)` (NumPy `a[mask]`): `mask` is a bool array matching `a`'s
/// first `md` dimensions, each of its dimensions 1 or equal to `a`'s. The result has
/// shape `(n, ..a.shape[md..])`, `n` the number of set mask elements: for each set
/// element in row-major order, the sub-array of `a` at that element's coordinates
/// (taken in the mask's own shape). A source coordinate outside `a` (a mask dimension
/// of 1 over an empty dimension of `a`) is `IndexOutOfBounds`.
#[verifier::spinoff_prover]
pub fn boolean_mask(a: &HostArray, mask: &HostArray) -> (r: Result<HostArray, OpError>)
    requires
        a.wf(),
        mask.wf(),
        mask.numel() <= usize::MAX,
        mask_check(a, mask) is Ok ==> nonzero_prod(mask_out_shape(a, mask)) * a.esize()
            <= isize::MAX,
    ensures
        match mask_check(a, mask) {
            Err(e) => r == Err::<HostArray, OpError>(e),
            Ok(()) => {
                let out = mask_out_shape(a, mask);
                if !mask_all_in_bounds(a, mask, out) {
                    r == Err::<HostArray, OpError>(OpError::IndexOutOfBounds)
                } else {
                    r matches Ok(g) && {
                        &&& g.wf()
                        &&& g.layout.shape@ == out
                        &&& g.layout.spec_is_contiguous()
                        &&& g.dtype == a.dtype && g.device == a.device
                        &&& forall|o: int|
                            0 <= o < seq_prod(out) ==> #[trigger] block(g.data@, o, a.esize())
                                == a.elem_at(mask_source(o, out, mask))
                    }
                }
            },
        },
{
    if mask.dtype != Dtype::Bool {
        return Err(OpError::DtypeUnsupported);
    }
    if mask.device != a.device {
        return Err(OpError::ShapeMismatch);
    }
    let ndim = a.layout.shape.len();
    let md = mask.layout.shape.len();
    if md > ndim {
        return Err(OpError::ShapeMismatch);
    }
    let mut d: usize = 0;
    while d < md
        invariant
            mask.dtype == Dtype::Bool,
            mask.device == a.device,
            md == mask.layout.shape@.len(),
            md <= ndim,
            ndim == a.layout.shape@.len(),
            d <= md,
            forall|j: int|
                0 <= j < d ==> #[trigger] mask.layout.shape@[j] == 1 || mask.layout.shape@[j]
                    == a.layout.shape@[j],
        decreases md - d,
    {
        let mdim = mask.layout.shape[d];
        if mdim != 1 && mdim != a.layout.shape[d] {
            proof {
                let j = d as int;
                assert(0 <= j < md && mask.layout.shape@[j] != 1 && mask.layout.shape@[j]
                    != a.layout.shape@[j]);
                assert(mask_dims_mismatch(a, mask));
            }
            return Err(OpError::ShapeMismatch);
        }
        d = d + 1;
    }
    if md == 0 {
        return Err(OpError::ShapeMismatch);
    }
    assert(mask_check(a, mask) == Ok::<(), OpError>(()));
    let pos = collect_true_positions(mask);
    let ghost tp = true_positions(mask, mask.numel());
    proof {
        crate::layout::lemma_seq_prod_nonneg(mask.layout.shape@);
        lemma_true_positions_bound(mask, mask.numel());
    }
    let ntrue = pos.len();
    let mut out_shape: Vec<usize> = Vec::new();
    out_shape.push(ntrue);
    let mut q: usize = md;
    while q < ndim
        invariant
            md <= q <= ndim,
            ndim == a.layout.shape@.len(),
            out_shape@ == seq![ntrue] + a.layout.shape@.subrange(md as int, q as int),
        decreases ndim - q,
    {
        out_shape.push(a.layout.shape[q]);
        assert(out_shape@ =~= seq![ntrue] + a.layout.shape@.subrange(md as int, q as int + 1));
        q = q + 1;
    }
    let ghost out = out_shape@;
    assert(out =~= mask_out_shape(a, mask));
    let es = a.dtype.element_size();
    proof {
        lemma_nonzero_row_major_bounds(out, es as int);
    }
    let mshape = mask.layout.copy_shape();
    let n = crate::op_builder::shape_size(out_shape.as_slice());
    let mut data: Vec<u8> = Vec::new();
    let mut o: usize = 0;
    while o < n
        invariant
            a.wf(),
            mask.wf(),
            mask_check(a, mask) == Ok::<(), OpError>(()),
            0 < md <= ndim,
            ndim == a.layout.shape@.len(),
            md == mask.layout.shape@.len(),
            mshape@ == mask.layout.shape@,
            out_shape@ == out,
            out == mask_out_shape(a, mask),
            out.len() == 1 + ndim - md,
            tp == true_positions(mask, mask.numel()),
            pos@.len() == tp.len(),
            ntrue == tp.len(),
            forall|t: int| 0 <= t < pos@.len() ==> #[trigger] pos@[t] as int == tp[t],
            forall|t: int| 0 <= t < tp.len() ==> 0 <= #[trigger] tp[t] < mask.numel(),
            n == seq_prod(out),
            es == a.esize(),
            n * es <= isize::MAX,
            forall|kk: int| 0 <= kk <= out.len() ==> #[trigger] suffix_prod(out, kk) <= isize::MAX,
            o <= n,
            data@.len() == o * es,
            forall|j: int|
                0 <= j < o ==> #[trigger] block(data@, j, es as int) == a.elem_at(
                    mask_source(j, out, mask),
                ),
            forall|j: int| 0 <= j < o ==> #[trigger] valid_coords(mask_source(j, out, mask), a.layout.shape@),
        decreases n - o,
    {
        proof {
            crate::layout::lemma_all_positive(out);
        }
        let c = unravel_index(o, out_shape.as_slice());
        let ghost cs = unravel(o as int, out);
        let t = c[0];
        proof {
            assert(0 <= cs[0] < out[0]);
        }
        let p = pos[t];
        proof {
            assert(p < mask.numel());
            crate::layout::lemma_all_positive(mshape@);
        }
        let mc = unravel_index(p, mshape.as_slice());
        let ghost src_spec = mask_source(o as int, out, mask);
        proof {
            assert(int_coords(mc@) == unravel(tp[cs[0]], mask.layout.shape@));
        }
        let mut src: Vec<usize> = Vec::new();
        let mut i: usize = 0;
        while i < md
            invariant
                a.wf(),
                mask_check(a, mask) == Ok::<(), OpError>(()),
                md == mask.layout.shape@.len(),
                md <= ndim,
                ndim == a.layout.shape@.len(),
                out == mask_out_shape(a, mask),
                0 <= o < seq_prod(out),
                src_spec == mask_source(o as int, out, mask),
                cs == unravel(o as int, out),
                int_coords(mc@) == unravel(tp[cs[0]], mask.layout.shape@),
                tp == true_positions(mask, mask.numel()),
                mc@.len() == md,
                i <= md,
                src@.len() == i,
                forall|j: int| 0 <= j < i ==> #[trigger] src@[j] as int == src_spec[j],
                forall|j: int| 0 <= j < i ==> #[trigger] src@[j] < a.layout.shape@[j],
            decreases md - i,
        {
            proof {
                assert(src_spec[i as int] == int_coords(mc@)[i as int]);
            }
            if mc[i] >= a.layout.shape[i] {
                proof {
                    assert(!valid_coords(src_spec, a.layout.shape@));
                    assert(!mask_all_in_bounds(a, mask, out));
                }
                return Err(OpError::IndexOutOfBounds);
            }
            src.push(mc[i]);
            i = i + 1;
        }
        let clen = c.len();
        let mut dd: usize = md;
        while dd < ndim
            invariant
                md <= dd <= ndim,
                ndim == a.layout.shape@.len(),
                clen == c@.len(),
                c@.len() == out.len(),
                out.len() == 1 + ndim - md,
                out == mask_out_shape(a, mask),
                md == mask.layout.shape@.len(),
                int_coords(c@) == cs,
                valid_coords(cs, out),
                src_spec == mask_source(o as int, out, mask),
                cs == unravel(o as int, out),
                int_coords(mc@) == unravel(tp[cs[0]], mask.layout.shape@),
                tp == true_positions(mask, mask.numel()),
                mc@.len() == md,
                src@.len() == dd,
                forall|j: int| 0 <= j < dd ==> #[trigger] src@[j] as int == src_spec[j],
                forall|j: int| 0 <= j < dd ==> #[trigger] src@[j] < a.layout.shape@[j],
            decreases ndim - dd,
        {
            proof {
                assert(out[1 + dd - md] == a.layout.shape@[dd as int]);
                assert(0 <= cs[1 + dd - md] < out[1 + dd - md]);
                assert(src_spec[dd as int] == cs[1 + dd - md]);
            }
            src.push(c[1 + (dd - md)]);
            dd = dd + 1;
        }
        proof {
            assert(src_spec.len() == ndim);
            assert(int_coords(src@) =~= src_spec);
            assert(valid_coords(src_spec, a.layout.shape@));
        }
        let e = element_index(a, src.as_slice());
        proof {
            assert(e * es <= (e + 1) * es && (e + 1) * es == e * es + es) by (nonlinear_arith)
                requires
                    es >= 0,
            ;
        }
        let start = e * es;
        let ghost before = data@;
        let mut bb: usize = 0;
        while bb < es
            invariant
                a.wf(),
                es == a.esize(),
                start + es <= a.data@.len(),
                bb <= es,
                data@.len() == o * es + bb,
                data@.subrange(0, o * es) == before,
                before.len() == o * es,
                forall|x: int| 0 <= x < bb ==> #[trigger] data@[o * es + x] == a.data@[start + x],
            decreases es - bb,
        {
            data.push(a.data[start + bb]);
            assert(data@.subrange(0, o * es) =~= before);
            bb = bb + 1;
        }
        proof {
            lemma_append_block(before, data@, o as int, es as int, a.elem_at(src_spec), a.data@, start as int);
            assert((o + 1) * es <= n * es) by (nonlinear_arith)
                requires
                    o + 1 <= n,
                    es >= 0,
            ;
        }
        o = o + 1;
    }
    let layout = Layout::from_shape(out_shape);
    let g = HostArray { layout, dtype: a.dtype, device: a.device, data: Arc::new(data) };
    proof {
        lemma_row_major_wf(&g);
        assert(mask_all_in_bounds(a, mask, out));
    }
    Ok(g)
}

} // verus!
