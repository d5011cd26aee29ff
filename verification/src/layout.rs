use vstd::prelude::*;

use crate::error::OpError;
use crate::indexing::SliceSpec;

verus! {

// ── Products of dimensions ─────────────────────────────────────

/// Product of all entries of a shape (the number of elements).
pub open spec fn seq_prod(s: Seq<usize>) -> int
    decreases s.len(),
{
    if s.len() == 0 {
        1
    } else {
        s[0] * seq_prod(s.drop_first())
    }
}

/// Product of the dimensions from `i` to the end.
pub open spec fn suffix_prod(s: Seq<usize>, i: int) -> int {
    seq_prod(s.subrange(i, s.len() as int))
}

/// Row-major (C order) stride of dimension `i`: product of the dimensions after it.
pub open spec fn c_stride(s: Seq<usize>, i: int) -> int {
    suffix_prod(s, i + 1)
}

/// Row-major strides of a shape.
pub open spec fn c_strides(s: Seq<usize>) -> Seq<int> {
    Seq::new(s.len(), |i: int| c_stride(s, i))
}

/// Every suffix product of the shape (hence every row-major stride) fits in `isize`.
pub open spec fn strides_fit(s: Seq<usize>) -> bool {
    forall|i: int| 0 <= i <= s.len() ==> #[trigger] suffix_prod(s, i) <= isize::MAX
}

/// Strides widened to mathematical integers.
pub open spec fn int_strides(s: Seq<isize>) -> Seq<int> {
    Seq::new(s.len(), |i: int| s[i] as int)
}

pub proof fn lemma_seq_prod_nonneg(s: Seq<usize>)
    ensures
        seq_prod(s) >= 0,
    decreases s.len(),
{
    if s.len() > 0 {
        lemma_seq_prod_nonneg(s.drop_first());
        assert(s[0] * seq_prod(s.drop_first()) >= 0) by (nonlinear_arith)
            requires
                seq_prod(s.drop_first()) >= 0,
        ;
    }
}

pub proof fn lemma_suffix_step(s: Seq<usize>, i: int)
    requires
        0 <= i < s.len(),
    ensures
        suffix_prod(s, i) == s[i] * suffix_prod(s, i + 1),
{
    let sub = s.subrange(i, s.len() as int);
    assert(sub.drop_first() =~= s.subrange(i + 1, s.len() as int));
}

pub proof fn lemma_suffix_end(s: Seq<usize>)
    ensures
        suffix_prod(s, s.len() as int) == 1,
{
    assert(s.subrange(s.len() as int, s.len() as int) =~= Seq::<usize>::empty());
}

pub proof fn lemma_suffix_full(s: Seq<usize>)
    ensures
        suffix_prod(s, 0) == seq_prod(s),
{
    assert(s.subrange(0, s.len() as int) =~= s);
}

/// A product is zero exactly when one of the dimensions is zero.
pub proof fn lemma_seq_prod_zero(s: Seq<usize>)
    ensures
        (seq_prod(s) == 0) <==> (exists|i: int| 0 <= i < s.len() && s[i] == 0),
    decreases s.len(),
{
    if s.len() > 0 {
        lemma_seq_prod_zero(s.drop_first());
        lemma_seq_prod_nonneg(s.drop_first());
        if seq_prod(s) == 0 {
            if s[0] != 0 {
                assert(seq_prod(s.drop_first()) == 0) by (nonlinear_arith)
                    requires
                        s[0] * seq_prod(s.drop_first()) == 0,
                        s[0] != 0,
                ;
                let j = choose|j: int| 0 <= j < s.drop_first().len() && s.drop_first()[j] == 0;
                assert(s[j + 1] == 0);
            }
        }
        if exists|i: int| 0 <= i < s.len() && s[i] == 0 {
            let i = choose|i: int| 0 <= i < s.len() && s[i] == 0;
            if i > 0 {
                assert(s.drop_first()[i - 1] == 0);
                assert(seq_prod(s.drop_first()) == 0);
                assert(s[0] * 0 == 0);
            } else {
                assert(0 * seq_prod(s.drop_first()) == 0);
            }
        }
    }
}

/// Product of the dimensions with zero dimensions counted as 1: bounds the number of
/// elements of any shape obtained by dropping dimensions or setting them to 1.
pub open spec fn nonzero_prod(s: Seq<usize>) -> int
    decreases s.len(),
{
    if s.len() == 0 {
        1
    } else {
        (if s[0] == 0 {
            1
        } else {
            s[0] as int
        }) * nonzero_prod(s.drop_first())
    }
}

pub proof fn lemma_nonzero_prod_pos(s: Seq<usize>)
    ensures
        nonzero_prod(s) >= 1,
    decreases s.len(),
{
    if s.len() > 0 {
        lemma_nonzero_prod_pos(s.drop_first());
        let f: int = if s[0] == 0 {
            1
        } else {
            s[0] as int
        };
        let r = nonzero_prod(s.drop_first());
        assert(f * r >= 1) by (nonlinear_arith)
            requires
                f >= 1,
                r >= 1,
        ;
    }
}

/// The number of elements never exceeds the zero-free product.
pub proof fn lemma_prod_le_nonzero_prod(s: Seq<usize>)
    ensures
        seq_prod(s) <= nonzero_prod(s),
    decreases s.len(),
{
    if s.len() > 0 {
        lemma_prod_le_nonzero_prod(s.drop_first());
        lemma_seq_prod_nonneg(s.drop_first());
        lemma_nonzero_prod_pos(s.drop_first());
        let p = seq_prod(s.drop_first());
        let r = nonzero_prod(s.drop_first());
        let d = s[0] as int;
        if d == 0 {
            assert(d * p == 0);
        } else {
            assert(d * p <= d * r) by (nonlinear_arith)
                requires
                    d >= 1,
                    p <= r,
            ;
        }
    }
}

/// Setting a dimension to 1 does not increase the zero-free product.
pub proof fn lemma_nonzero_prod_update_one(s: Seq<usize>, k: int)
    requires
        0 <= k < s.len(),
    ensures
        nonzero_prod(s.update(k, 1usize)) <= nonzero_prod(s),
    decreases s.len(),
{
    let t = s.update(k, 1usize);
    lemma_nonzero_prod_pos(s.drop_first());
    let f: int = if s[0] == 0 {
        1
    } else {
        s[0] as int
    };
    if k == 0 {
        assert(t.drop_first() =~= s.drop_first());
        let r = nonzero_prod(s.drop_first());
        assert(1 * r <= f * r) by (nonlinear_arith)
            requires
                f >= 1,
                r >= 1,
        ;
    } else {
        assert(t.drop_first() =~= s.drop_first().update(k - 1, 1usize));
        lemma_nonzero_prod_update_one(s.drop_first(), k - 1);
        let a = nonzero_prod(t.drop_first());
        let b = nonzero_prod(s.drop_first());
        assert(f * a <= f * b) by (nonlinear_arith)
            requires
                f >= 1,
                a <= b,
        ;
    }
}

/// Dropping a dimension does not increase the zero-free product.
pub proof fn lemma_nonzero_prod_remove(s: Seq<usize>, k: int)
    requires
        0 <= k < s.len(),
    ensures
        nonzero_prod(remove_at(s, k)) <= nonzero_prod(s),
    decreases s.len(),
{
    let t = remove_at(s, k);
    lemma_nonzero_prod_pos(s.drop_first());
    let f: int = if s[0] == 0 {
        1
    } else {
        s[0] as int
    };
    if k == 0 {
        assert(t =~= s.drop_first());
        let r = nonzero_prod(s.drop_first());
        assert(r <= f * r) by (nonlinear_arith)
            requires
                f >= 1,
                r >= 1,
        ;
    } else {
        assert(t.drop_first() =~= remove_at(s.drop_first(), k - 1));
        assert(t[0] == s[0]);
        lemma_nonzero_prod_remove(s.drop_first(), k - 1);
        let a = nonzero_prod(t.drop_first());
        let b = nonzero_prod(s.drop_first());
        assert(f * a <= f * b) by (nonlinear_arith)
            requires
                f >= 1,
                a <= b,
        ;
    }
}

/// The zero-free product of a concatenation is the product of the parts'.
pub proof fn lemma_nonzero_prod_concat(a: Seq<usize>, b: Seq<usize>)
    ensures
        nonzero_prod(a + b) == nonzero_prod(a) * nonzero_prod(b),
    decreases a.len(),
{
    if a.len() == 0 {
        assert(a + b =~= b);
    } else {
        lemma_nonzero_prod_concat(a.drop_first(), b);
        assert((a + b).drop_first() =~= a.drop_first() + b);
        let f: int = if a[0] == 0 {
            1
        } else {
            a[0] as int
        };
        let x = nonzero_prod(a.drop_first());
        let y = nonzero_prod(b);
        assert(f * (x * y) == (f * x) * y) by (nonlinear_arith);
    }
}

/// The product of a concatenation is the product of the parts'.
pub proof fn lemma_seq_prod_concat(a: Seq<usize>, b: Seq<usize>)
    ensures
        seq_prod(a + b) == seq_prod(a) * seq_prod(b),
    decreases a.len(),
{
    if a.len() == 0 {
        assert(a + b =~= b);
    } else {
        lemma_seq_prod_concat(a.drop_first(), b);
        assert((a + b).drop_first() =~= a.drop_first() + b);
        let f = a[0] as int;
        let x = seq_prod(a.drop_first());
        let y = seq_prod(b);
        assert(f * (x * y) == (f * x) * y) by (nonlinear_arith);
    }
}

/// A suffix of a shape has a zero-free product no larger than the whole shape's.
pub proof fn lemma_nonzero_prod_suffix(s: Seq<usize>, i: int)
    requires
        0 <= i <= s.len(),
    ensures
        nonzero_prod(s.subrange(i, s.len() as int)) <= nonzero_prod(s),
    decreases i,
{
    if i == 0 {
        assert(s.subrange(0, s.len() as int) =~= s);
    } else {
        lemma_nonzero_prod_suffix(s, i - 1);
        let t = s.subrange(i - 1, s.len() as int);
        assert(t.drop_first() =~= s.subrange(i, s.len() as int));
        lemma_nonzero_prod_pos(t.drop_first());
        let f: int = if t[0] == 0 {
            1
        } else {
            t[0] as int
        };
        let r = nonzero_prod(t.drop_first());
        assert(r <= f * r) by (nonlinear_arith)
            requires
                f >= 1,
                r >= 1,
        ;
    }
}

/// Row-major strides are representable when the zero-free product is.
pub proof fn lemma_strides_fit(s: Seq<usize>)
    requires
        nonzero_prod(s) <= isize::MAX,
    ensures
        strides_fit(s),
{
    assert forall|i: int| 0 <= i <= s.len() implies #[trigger] suffix_prod(s, i) <= isize::MAX by {
        lemma_nonzero_prod_suffix(s, i);
        lemma_prod_le_nonzero_prod(s.subrange(i, s.len() as int));
    }
}

// ── Layout ─────────────────────────────────────────────────────

/// Shape, strides (in elements, possibly negative) and base offset of an array view.
///
/// Element `(c_0, .., c_{n-1})` of the view lives at
/// `offset + c_0 * strides[0] + .. + c_{n-1} * strides[n-1]` in its buffer.
#[derive(Clone, Debug, PartialEq, Eq)]
pub struct Layout {
    pub shape: Vec<usize>,
    pub strides: Vec<isize>,
    pub offset: usize,
}

impl Layout {
    /// Shape and strides have one entry per dimension.
    pub open spec fn wf(&self) -> bool {
        self.shape.len() == self.strides.len()
    }

    /// The strides as mathematical integers.
    pub open spec fn istrides(&self) -> Seq<int> {
        int_strides(self.strides@)
    }

    /// The view is row-major with no offset.
    pub open spec fn spec_is_contiguous(&self) -> bool {
        self.offset == 0 && self.istrides() == c_strides(self.shape@)
    }

    /// Row-major layout of a shape, offset 0.
    pub fn from_shape(shape: Vec<usize>) -> (r: Layout)
        requires
            strides_fit(shape@),
        ensures
            r.wf(),
            r.shape@ == shape@,
            r.istrides() == c_strides(shape@),
            r.offset == 0,
    {
        let n = shape.len();
        let mut strides: Vec<isize> = Vec::new();
        let mut k: usize = 0;
        while k < n
            invariant
                k <= n,
                strides.len() == k,
            decreases n - k,
        {
            strides.push(0);
            k = k + 1;
        }
        let mut acc: usize = 1;
        let mut i: usize = n;
        proof {
            lemma_suffix_end(shape@);
        }
        while i > 0
            invariant
                n == shape.len(),
                strides.len() == n,
                i <= n,
                strides_fit(shape@),
                acc as int == suffix_prod(shape@, i as int),
                forall|j: int| i <= j < n ==> strides@[j] as int == c_stride(shape@, j),
            decreases i,
        {
            i = i - 1;
            assert(suffix_prod(shape@, i as int + 1) <= isize::MAX);
            strides.set(i, acc as isize);
            proof {
                lemma_suffix_step(shape@, i as int);
                assert(suffix_prod(shape@, i as int) <= isize::MAX);
                let a = acc as int;
                let d = shape@[i as int] as int;
                assert(d * a == a * d) by (nonlinear_arith);
            }
            acc = acc * shape[i];
        }
        let r = Layout { shape, strides, offset: 0 };
        assert(r.istrides() =~= c_strides(r.shape@));
        r
    }

    /// Layout with explicit strides and offset 0.
    pub fn from_shape_and_strides(shape: Vec<usize>, strides: Vec<isize>) -> (r: Result<
        Layout,
        OpError,
    >)
        ensures
            shape@.len() == strides@.len() ==> r == Ok::<Layout, OpError>(
                Layout { shape, strides, offset: 0 },
            ),
            shape@.len() != strides@.len() ==> r == Err::<Layout, OpError>(OpError::ShapeMismatch),
    {
        if shape.len() == strides.len() {
            Ok(Layout { shape, strides, offset: 0 })
        } else {
            Err(OpError::ShapeMismatch)
        }
    }

    /// Number of dimensions.
    pub fn ndim(&self) -> (r: usize)
        ensures
            r == self.shape.len(),
    {
        self.shape.len()
    }

    /// Whether the strides are the row-major strides of the shape (offset ignored).
    pub fn has_contiguous_strides(&self) -> (r: bool)
        requires
            self.wf(),
        ensures
            r == (self.istrides() == c_strides(self.shape@)),
    {
        let n = self.shape.len();
        let mut acc: usize = 1;
        let mut i: usize = n;
        proof {
            lemma_suffix_end(self.shape@);
        }
        while i > 0
            invariant
                n == self.shape.len(),
                n == self.strides.len(),
                i <= n,
                acc as int == suffix_prod(self.shape@, i as int),
                forall|j: int| i <= j < n ==> self.strides@[j] as int == c_stride(self.shape@, j),
            decreases i,
        {
            i = i - 1;
            if acc > isize::MAX as usize || self.strides[i] != acc as isize {
                assert(self.istrides()[i as int] != c_strides(self.shape@)[i as int]);
                return false;
            }
            proof {
                lemma_suffix_step(self.shape@, i as int);
                let a = acc as int;
                let d = self.shape@[i as int] as int;
                assert(d * a == a * d) by (nonlinear_arith);
            }
            match acc.checked_mul(self.shape[i]) {
                Some(v) => {
                    acc = v;
                },
                None => {
                    // Dimension i - 1 would need a stride larger than any `isize`.
                    if i == 0 {
                        assert(self.istrides() =~= c_strides(self.shape@));
                        return true;
                    }
                    assert(self.istrides()[i as int - 1] != c_strides(self.shape@)[i as int - 1]);
                    return false;
                },
            }
        }
        assert(self.istrides() =~= c_strides(self.shape@));
        true
    }

    /// Row-major strides and offset 0.
    pub fn is_contiguous(&self) -> (r: bool)
        requires
            self.wf(),
        ensures
            r == self.spec_is_contiguous(),
    {
        self.offset == 0 && self.has_contiguous_strides()
    }

    /// Reordered dimensions: `None` reverses them, `Some(p)` takes dimension `p[i]` as
    /// the new dimension `i` and must be a permutation of `0..ndim`.
    pub fn transposed(&self, axes: Option<&[usize]>) -> (r: Result<Layout, OpError>)
        requires
            self.wf(),
        ensures
            match axes {
                None => r matches Ok(l) && l.is_permuted_from(*self, reversal(self.shape@.len())),
                Some(p) => if is_permutation(p@, self.shape@.len()) {
                    r matches Ok(l) && l.is_permuted_from(*self, p@)
                } else {
                    r == Err::<Layout, OpError>(OpError::ShapeMismatch)
                },
            },
    {
        let n = self.shape.len();
        match axes {
            None => {
                let rv = reversal_vec(n);
                Ok(self.permuted(rv.as_slice()))
            },
            Some(p) => {
                if !check_permutation(p, n) {
                    return Err(OpError::ShapeMismatch);
                }
                Ok(self.permuted(p))
            },
        }
    }

    /// The layout with dimension `p[i]` moved to position `i`.
    pub open spec fn is_permuted_from(&self, src: Layout, p: Seq<usize>) -> bool {
        &&& self.wf()
        &&& self.shape@ == permute_seq(src.shape@, p)
        &&& self.strides@ == permute_seq(src.strides@, p)
        &&& self.offset == src.offset
    }

    fn permuted(&self, p: &[usize]) -> (r: Layout)
        requires
            self.wf(),
            is_permutation(p@, self.shape@.len()),
        ensures
            r.is_permuted_from(*self, p@),
    {
        let n = p.len();
        let mut shape: Vec<usize> = Vec::new();
        let mut strides: Vec<isize> = Vec::new();
        let mut i: usize = 0;
        while i < n
            invariant
                n == p.len(),
                is_permutation(p@, self.shape@.len()),
                self.wf(),
                i <= n,
                shape@ == permute_seq(self.shape@, p@.take(i as int)),
                strides@ == permute_seq(self.strides@, p@.take(i as int)),
            decreases n - i,
        {
            let ax = p[i];
            shape.push(self.shape[ax]);
            strides.push(self.strides[ax]);
            proof {
                assert(p@.take(i as int + 1) =~= p@.take(i as int).push(ax));
            }
            assert(shape@ =~= permute_seq(self.shape@, p@.take(i as int + 1)));
            assert(strides@ =~= permute_seq(self.strides@, p@.take(i as int + 1)));
            i = i + 1;
        }
        assert(p@.take(n as int) =~= p@);
        Layout { shape, strides, offset: self.offset }
    }
}

// ── Element offsets ────────────────────────────────────────────

/// All dimensions are non-empty.
pub open spec fn all_positive(s: Seq<usize>) -> bool {
    forall|i: int| 0 <= i < s.len() ==> #[trigger] s[i] > 0
}

/// Coordinate along dimension `d` of the `lin`-th element in row-major order.
pub open spec fn coord_of(lin: int, shape: Seq<usize>, d: int) -> int {
    (lin / suffix_prod(shape, d + 1)) % (shape[d] as int)
}

/// Contribution of dimensions `i..` to the offset of the `lin`-th element.
pub open spec fn offset_from(lin: int, shape: Seq<usize>, strides: Seq<int>, i: int) -> int
    decreases shape.len() - i,
{
    if i >= shape.len() || i < 0 {
        0
    } else {
        coord_of(lin, shape, i) * strides[i] + offset_from(lin, shape, strides, i + 1)
    }
}

/// Offset (relative to the base) of the `lin`-th element in row-major order.
pub open spec fn nd_offset(lin: int, shape: Seq<usize>, strides: Seq<int>) -> int {
    offset_from(lin, shape, strides, 0)
}

/// Every term and every partial sum of the offset computation fits in `isize`.
pub open spec fn offset_fits(lin: int, shape: Seq<usize>, strides: Seq<int>) -> bool {
    &&& forall|i: int|
        0 <= i <= shape.len() ==> isize::MIN <= #[trigger] offset_from(lin, shape, strides, i)
            <= isize::MAX
    &&& forall|i: int|
        0 <= i < shape.len() ==> isize::MIN <= #[trigger] (coord_of(lin, shape, i) * strides[i])
            <= isize::MAX
}

/// A shape with a non-zero element count has no empty dimension.
pub proof fn lemma_all_positive(s: Seq<usize>)
    requires
        seq_prod(s) != 0,
    ensures
        all_positive(s),
{
    lemma_seq_prod_zero(s);
    assert forall|d: int| 0 <= d < s.len() implies #[trigger] s[d] > 0 by {
        if s[d] == 0 {
            assert(seq_prod(s) == 0);
        }
    }
}

pub proof fn lemma_suffix_positive(s: Seq<usize>, i: int)
    requires
        all_positive(s),
        0 <= i <= s.len(),
    ensures
        suffix_prod(s, i) > 0,
    decreases s.len() - i,
{
    if i == s.len() {
        lemma_suffix_end(s);
    } else {
        lemma_suffix_positive(s, i + 1);
        lemma_suffix_step(s, i);
        let a = s[i] as int;
        let b = suffix_prod(s, i + 1);
        assert(a * b > 0) by (nonlinear_arith)
            requires
                a > 0,
                b > 0,
        ;
    }
}

/// One step of row-major unravelling: dividing by the size of dimension `i` moves the
/// running index from "elements of dims `i+1..`" to "elements of dims `i..`".
pub proof fn lemma_unravel_step(lin: int, s: Seq<usize>, i: int)
    requires
        all_positive(s),
        0 <= i < s.len(),
        lin >= 0,
    ensures
        (lin / suffix_prod(s, i + 1)) / (s[i] as int) == lin / suffix_prod(s, i),
        (lin / suffix_prod(s, i + 1)) % (s[i] as int) == coord_of(lin, s, i),
{
    lemma_suffix_positive(s, i + 1);
    lemma_suffix_step(s, i);
    vstd::arithmetic::div_mod::lemma_div_denominator(lin, suffix_prod(s, i + 1), s[i] as int);
    assert(suffix_prod(s, i + 1) * (s[i] as int) == (s[i] as int) * suffix_prod(s, i + 1))
        by (nonlinear_arith);
}

/// Base offset after flipping `axis`: the address of the last element along it.
pub open spec fn flip_offset(l: Layout, axis: int) -> int {
    if l.shape@[axis] == 0 {
        l.offset as int
    } else {
        l.offset + (l.shape@[axis] - 1) * l.strides@[axis]
    }
}

/// The flipped stride and offset are representable.
pub open spec fn flip_fits(l: Layout, axis: int) -> bool {
    &&& l.strides@[axis] != isize::MIN
    &&& 0 <= flip_offset(l, axis) <= usize::MAX
}

/// Base offset after selecting `index` along `axis`.
pub open spec fn select_offset(l: Layout, axis: int, index: int) -> int {
    l.offset + index * l.strides@[axis]
}

/// `s` without entry `k`.
pub open spec fn remove_at<T>(s: Seq<T>, k: int) -> Seq<T> {
    s.take(k) + s.skip(k + 1)
}

/// `ceil(len / step)` for `step > 0`.
pub open spec fn ceil_div(len: int, step: int) -> int {
    if len <= 0 {
        0
    } else {
        (len - 1) / step + 1
    }
}

/// The slice parameters fit the layout: one per dimension, positive steps, and
/// `start <= stop <= dim`.
pub open spec fn slice_valid(l: Layout, specs: Seq<SliceSpec>) -> bool {
    &&& specs.len() == l.shape@.len()
    &&& forall|i: int|
        0 <= i < specs.len() ==> {
            &&& #[trigger] specs[i].step > 0
            &&& specs[i].start <= specs[i].stop
            &&& specs[i].stop <= l.shape@[i]
        }
}

/// Offset plus the contributions of the starts of the first `k` dimensions.
pub open spec fn slice_base(offset: int, specs: Seq<SliceSpec>, strides: Seq<isize>, k: int) -> int
    decreases k,
{
    if k <= 0 {
        offset
    } else {
        slice_base(offset, specs, strides, k - 1) + specs[k - 1].start * strides[k - 1]
    }
}

/// The sliced strides and every partial base offset are representable.
pub open spec fn slice_fits(l: Layout, specs: Seq<SliceSpec>) -> bool {
    &&& forall|i: int|
        0 <= i < specs.len() ==> isize::MIN <= #[trigger] (l.strides@[i] * specs[i].step)
            <= isize::MAX
    &&& forall|k: int|
        0 <= k <= specs.len() ==> 0 <= #[trigger] slice_base(
            l.offset as int,
            specs,
            l.strides@,
            k,
        ) <= usize::MAX
}

proof fn lemma_mul_bound_i128(a: int, b: int)
    requires
        0 <= a <= usize::MAX,
        isize::MIN <= b <= isize::MAX,
    ensures
        -0x7fff_ffff_ffff_ffff_8000_0000_0000_0000int <= a * b <= 0x7fff_ffff_ffff_ffff_0000_0000_0000_0001int,
{
    assert(-0x7fff_ffff_ffff_ffff_8000_0000_0000_0000int <= a * b <= 0x7fff_ffff_ffff_ffff_0000_0000_0000_0001int)
        by (nonlinear_arith)
        requires
            0 <= a <= 0xffff_ffff_ffff_ffffint,
            -0x8000_0000_0000_0000int <= b <= 0x7fff_ffff_ffff_ffffint,
    ;
}

impl Layout {
    /// Reverses `axis`: its stride is negated and the offset moves to its last element.
    pub fn flipped(&self, axis: usize) -> (r: Result<Layout, OpError>)
        requires
            self.wf(),
            axis < self.shape.len() ==> flip_fits(*self, axis as int),
        ensures
            axis >= self.shape.len() ==> r == Err::<Layout, OpError>(OpError::ShapeMismatch),
            axis < self.shape.len() ==> (r matches Ok(l) && {
                &&& l.wf()
                &&& l.shape@ == self.shape@
                &&& l.strides@ == self.strides@.update(axis as int, (-self.strides@[axis as int]) as isize)
                &&& l.offset == flip_offset(*self, axis as int)
            }),
    {
        if axis >= self.shape.len() {
            return Err(OpError::ShapeMismatch);
        }
        let d = self.shape[axis];
        let st = self.strides[axis];
        let offset: usize = if d == 0 {
            self.offset
        } else {
            proof {
                lemma_mul_bound_i128(d as int - 1, st as int);
            }
            let t: i128 = self.offset as i128 + (d as i128 - 1) * (st as i128);
            t as usize
        };
        let mut strides = self.copy_strides();
        strides.set(axis, -st);
        Ok(Layout { shape: self.copy_shape(), strides, offset })
    }

    /// Drops `axis`, fixing its coordinate to `index`.
    pub fn index_selected(&self, axis: usize, index: usize) -> (r: Result<Layout, OpError>)
        requires
            self.wf(),
            axis < self.shape.len() && index < self.shape@[axis as int] ==> 0 <= select_offset(
                *self,
                axis as int,
                index as int,
            ) <= usize::MAX,
        ensures
            axis >= self.shape.len() ==> r == Err::<Layout, OpError>(OpError::ShapeMismatch),
            axis < self.shape.len() && index >= self.shape@[axis as int] ==> r == Err::<
                Layout,
                OpError,
            >(OpError::ShapeMismatch),
            axis < self.shape.len() && index < self.shape@[axis as int] ==> (r matches Ok(l) && {
                &&& l.wf()
                &&& l.shape@ == remove_at(self.shape@, axis as int)
                &&& l.strides@ == remove_at(self.strides@, axis as int)
                &&& l.offset == select_offset(*self, axis as int, index as int)
            }),
    {
        let n = self.shape.len();
        if axis >= n {
            return Err(OpError::ShapeMismatch);
        }
        if index >= self.shape[axis] {
            return Err(OpError::ShapeMismatch);
        }
        proof {
            lemma_mul_bound_i128(index as int, self.strides@[axis as int] as int);
        }
        let t: i128 = self.offset as i128 + (index as i128) * (self.strides[axis] as i128);
        let offset = t as usize;
        let mut shape: Vec<usize> = Vec::new();
        let mut strides: Vec<isize> = Vec::new();
        let mut i: usize = 0;
        while i < n
            invariant
                n == self.shape.len(),
                n == self.strides.len(),
                axis < n,
                i <= n,
                i <= axis ==> shape@ == self.shape@.take(i as int) && strides@ == self.strides@.take(
                    i as int,
                ),
                i > axis ==> shape@ == self.shape@.take(axis as int) + self.shape@.subrange(
                    axis + 1,
                    i as int,
                ) && strides@ == self.strides@.take(axis as int) + self.strides@.subrange(
                    axis + 1,
                    i as int,
                ),
            decreases n - i,
        {
            if i != axis {
                shape.push(self.shape[i]);
                strides.push(self.strides[i]);
            }
            proof {
                if i < axis {
                    assert(shape@ =~= self.shape@.take(i as int + 1));
                    assert(strides@ =~= self.strides@.take(i as int + 1));
                } else if i == axis {
                    assert(shape@ =~= self.shape@.take(axis as int) + self.shape@.subrange(
                        axis + 1,
                        i + 1,
                    ));
                    assert(strides@ =~= self.strides@.take(axis as int) + self.strides@.subrange(
                        axis + 1,
                        i + 1,
                    ));
                } else {
                    assert(shape@ =~= self.shape@.take(axis as int) + self.shape@.subrange(
                        axis + 1,
                        i + 1,
                    ));
                    assert(strides@ =~= self.strides@.take(axis as int) + self.strides@.subrange(
                        axis + 1,
                        i + 1,
                    ));
                }
            }
            i = i + 1;
        }
        assert(shape@ =~= remove_at(self.shape@, axis as int));
        assert(strides@ =~= remove_at(self.strides@, axis as int));
        Ok(Layout { shape, strides, offset })
    }

    /// Strided sub-view: dimension `i` keeps `ceil((stop - start) / step)` elements, its
    /// stride is multiplied by `step`, and the offset moves to the `start` corner.
    pub fn sliced(&self, specs: &[SliceSpec]) -> (r: Result<Layout, OpError>)
        requires
            self.wf(),
            slice_valid(*self, specs@) ==> slice_fits(*self, specs@),
        ensures
            !slice_valid(*self, specs@) ==> r == Err::<Layout, OpError>(OpError::ShapeMismatch),
            slice_valid(*self, specs@) ==> (r matches Ok(l) && {
                &&& l.wf()
                &&& l.shape@.len() == self.shape@.len()
                &&& forall|i: int|
                    0 <= i < specs@.len() ==> #[trigger] l.shape@[i] == ceil_div(
                        specs@[i].stop - specs@[i].start,
                        specs@[i].step as int,
                    )
                &&& forall|i: int|
                    0 <= i < specs@.len() ==> #[trigger] l.strides@[i] == self.strides@[i]
                        * specs@[i].step
                &&& l.offset == slice_base(
                    self.offset as int,
                    specs@,
                    self.strides@,
                    specs@.len() as int,
                )
            }),
    {
        let n = self.shape.len();
        if specs.len() != n {
            return Err(OpError::ShapeMismatch);
        }
        let mut k: usize = 0;
        while k < n
            invariant
                n == self.shape.len(),
                specs.len() == n,
                k <= n,
                forall|i: int|
                    0 <= i < k ==> {
                        &&& #[trigger] specs@[i].step > 0
                        &&& specs@[i].start <= specs@[i].stop
                        &&& specs@[i].stop <= self.shape@[i]
                    },
            decreases n - k,
        {
            let sp = specs[k];
            if sp.step == 0 || sp.start > sp.stop || sp.stop > self.shape[k] {
                assert(!(specs@[k as int].step > 0 && specs@[k as int].start <= specs@[k as int].stop
                    && specs@[k as int].stop <= self.shape@[k as int]));
                return Err(OpError::ShapeMismatch);
            }
            k = k + 1;
        }
        assert(slice_valid(*self, specs@));
        let mut shape: Vec<usize> = Vec::new();
        let mut strides: Vec<isize> = Vec::new();
        let mut acc: i128 = self.offset as i128;
        let mut i: usize = 0;
        while i < n
            invariant
                n == self.shape.len(),
                n == self.strides.len(),
                specs.len() == n,
                i <= n,
                slice_valid(*self, specs@),
                slice_fits(*self, specs@),
                shape.len() == i,
                strides.len() == i,
                acc as int == slice_base(self.offset as int, specs@, self.strides@, i as int),
                forall|j: int|
                    0 <= j < i ==> #[trigger] shape@[j] == ceil_div(
                        specs@[j].stop - specs@[j].start,
                        specs@[j].step as int,
                    ),
                forall|j: int|
                    0 <= j < i ==> #[trigger] strides@[j] == self.strides@[j] * specs@[j].step,
            decreases n - i,
        {
            let sp = specs[i];
            assert(sp.step > 0);
            let len = sp.stop - sp.start;
            let cnt: usize = if len == 0 {
                0
            } else {
                (len - 1) / sp.step + 1
            };
            assert(isize::MIN <= self.strides@[i as int] * specs@[i as int].step <= isize::MAX);
            let st: i128 = (self.strides[i] as i128) * (sp.step as i128);
            shape.push(cnt);
            strides.push(st as isize);
            proof {
                lemma_mul_bound_i128(sp.start as int, self.strides@[i as int] as int);
                assert(0 <= slice_base(self.offset as int, specs@, self.strides@, i as int + 1)
                    <= usize::MAX);
            }
            acc = acc + (sp.start as i128) * (self.strides[i] as i128);
            i = i + 1;
        }
        let offset = acc as usize;
        Ok(Layout { shape, strides, offset })
    }

    /// A copy of the shape vector.
    pub fn copy_shape(&self) -> (r: Vec<usize>)
        ensures
            r@ == self.shape@,
    {
        let mut r: Vec<usize> = Vec::new();
        let mut i: usize = 0;
        while i < self.shape.len()
            invariant
                i <= self.shape.len(),
                r@ == self.shape@.take(i as int),
            decreases self.shape.len() - i,
        {
            r.push(self.shape[i]);
            assert(r@ =~= self.shape@.take(i as int + 1));
            i = i + 1;
        }
        assert(r@ =~= self.shape@);
        r
    }

    /// A copy of the strides vector.
    pub fn copy_strides(&self) -> (r: Vec<isize>)
        ensures
            r@ == self.strides@,
    {
        let mut r: Vec<isize> = Vec::new();
        let mut i: usize = 0;
        while i < self.strides.len()
            invariant
                i <= self.strides.len(),
                r@ == self.strides@.take(i as int),
            decreases self.strides.len() - i,
        {
            r.push(self.strides[i]);
            assert(r@ =~= self.strides@.take(i as int + 1));
            i = i + 1;
        }
        assert(r@ =~= self.strides@);
        r
    }

    /// An identical layout.
    pub fn duplicate(&self) -> (r: Layout)
        ensures
            r.shape@ == self.shape@,
            r.strides@ == self.strides@,
            r.offset == self.offset,
    {
        let r = Layout { shape: self.copy_shape(), strides: self.copy_strides(), offset: self.offset };
        r
    }
}

/// `p` lists each of `0..n` exactly once.
pub open spec fn is_permutation(p: Seq<usize>, n: nat) -> bool {
    &&& p.len() == n
    &&& forall|i: int| 0 <= i < p.len() ==> #[trigger] p[i] < n
    &&& forall|i: int, j: int| 0 <= i < j < p.len() ==> p[i] != p[j]
}

/// Entry `i` of the result is entry `p[i]` of `s`.
pub open spec fn permute_seq<T>(s: Seq<T>, p: Seq<usize>) -> Seq<T> {
    Seq::new(p.len(), |i: int| s[p[i] as int])
}

/// The permutation `n-1, .., 1, 0`.
pub open spec fn reversal(n: nat) -> Seq<usize> {
    Seq::new(n, |i: int| (n - 1 - i) as usize)
}

/// Builds the permutation `n-1, .., 1, 0`.
pub fn reversal_vec(n: usize) -> (r: Vec<usize>)
    ensures
        r@ == reversal(n as nat),
        is_permutation(r@, n as nat),
{
    let mut r: Vec<usize> = Vec::new();
    let mut i: usize = 0;
    while i < n
        invariant
            i <= n,
            r@ =~= reversal(n as nat).take(i as int),
        decreases n - i,
    {
        r.push(n - 1 - i);
        i = i + 1;
    }
    assert(r@ =~= reversal(n as nat));
    r
}

/// Whether `p` is a permutation of `0..n`.
pub fn check_permutation(p: &[usize], n: usize) -> (r: bool)
    ensures
        r == is_permutation(p@, n as nat),
{
    if p.len() != n {
        return false;
    }
    let mut seen: Vec<bool> = Vec::new();
    let mut k: usize = 0;
    while k < n
        invariant
            k <= n,
            seen.len() == k,
            forall|j: int| 0 <= j < k ==> !seen@[j],
        decreases n - k,
    {
        seen.push(false);
        k = k + 1;
    }
    let mut i: usize = 0;
    while i < n
        invariant
            p.len() == n,
            seen.len() == n,
            i <= n,
            forall|a: int| 0 <= a < i ==> #[trigger] p@[a] < n,
            forall|a: int, b: int| 0 <= a < b < i ==> p@[a] != p@[b],
            forall|j: int|
                0 <= j < n ==> (#[trigger] seen@[j] <==> exists|a: int| 0 <= a < i && p@[a] == j),
        decreases n - i,
    {
        let ax = p[i];
        if ax >= n {
            return false;
        }
        if seen[ax] {
            let ghost a = choose|a: int| 0 <= a < i && p@[a] == ax;
            assert(p@[a] == p@[i as int]);
            return false;
        }
        seen.set(ax, true);
        proof {
            assert forall|j: int| 0 <= j < n implies (#[trigger] seen@[j] <==> exists|a: int|
                0 <= a < i + 1 && p@[a] == j) by {
                if j == ax {
                    assert(p@[i as int] == j);
                } else {
                    if exists|a: int| 0 <= a < i + 1 && p@[a] == j {
                        let a = choose|a: int| 0 <= a < i + 1 && p@[a] == j;
                        assert(a < i);
                    }
                }
            }
            assert forall|a: int, b: int| 0 <= a < b < i + 1 implies p@[a] != p@[b] by {
                if b == i {
                    if p@[a] == p@[b] {
                        assert(seen@[ax as int]);
                    }
                }
            }
        }
        i = i + 1;
    }
    true
}


/// `inv` undoes `p`: `inv[p[i]] == i`.
pub open spec fn is_inverse_permutation(inv: Seq<usize>, p: Seq<usize>) -> bool {
    &&& inv.len() == p.len()
    &&& forall|i: int| 0 <= i < p.len() ==> #[trigger] inv[p[i] as int] == i
}

/// The inverse of a permutation: `r[p[i]] == i`.
pub fn inverse_permutation(p: &[usize]) -> (r: Vec<usize>)
    requires
        is_permutation(p@, p@.len()),
    ensures
        is_inverse_permutation(r@, p@),
        is_permutation(r@, p@.len()),
{
    let n = p.len();
    let mut r: Vec<usize> = Vec::new();
    let mut k: usize = 0;
    while k < n
        invariant
            k <= n,
            r@.len() == k,
        decreases n - k,
    {
        r.push(0);
        k = k + 1;
    }
    let mut i: usize = 0;
    while i < n
        invariant
            n == p@.len(),
            is_permutation(p@, n as nat),
            r@.len() == n,
            i <= n,
            forall|t: int| 0 <= t < i ==> #[trigger] r@[p@[t] as int] == t,
        decreases n - i,
    {
        let ghost before = r@;
        r.set(p[i], i);
        proof {
            assert forall|t: int| 0 <= t < i + 1 implies #[trigger] r@[p@[t] as int] == t by {
                if t < i {
                    assert(p@[t] != p@[i as int]);
                    assert(r@[p@[t] as int] == before[p@[t] as int]);
                }
            }
        }
        i = i + 1;
    }
    proof {
        lemma_permutation_surjective(p@);
        assert forall|a: int| 0 <= a < n implies #[trigger] r@[a] < n by {
            assert(occurs(p@, a));
            let t = choose|t: int| 0 <= t < n && p@[t] == a;
            assert(r@[p@[t] as int] == t);
        }
        assert forall|a: int, b: int| 0 <= a < b < n implies r@[a] != r@[b] by {
            assert(occurs(p@, a));
            assert(occurs(p@, b));
            let ta = choose|t: int| 0 <= t < n && p@[t] == a;
            let tb = choose|t: int| 0 <= t < n && p@[t] == b;
            assert(r@[p@[ta] as int] == ta);
            assert(r@[p@[tb] as int] == tb);
        }
    }
    r
}

/// `a` is an entry of `p`.
pub open spec fn occurs(p: Seq<usize>, a: int) -> bool {
    exists|t: int| 0 <= t < p.len() && p[t] == a
}

/// Every value below `n` occurs in a permutation of `0..n`.
pub proof fn lemma_permutation_surjective(p: Seq<usize>)
    requires
        is_permutation(p, p.len()),
    ensures
        forall|a: int| 0 <= a < p.len() ==> #[trigger] occurs(p, a),
{
    let n = p.len();
    assert forall|a: int| 0 <= a < n implies #[trigger] occurs(p, a) by {
        if !(exists|t: int| 0 <= t < n && p[t] == a) {
            // p maps 0..n injectively into 0..n without a: impossible.
            let s = Set::new(|x: int| 0 <= x < n && x != a);
            let img = Set::new(|x: int| exists|t: int| 0 <= t < n && p[t] == x);
            assert(img.subset_of(s));
            lemma_injective_image_card(p);
            assert(s =~= vstd::set_lib::set_int_range(0, n as int).remove(a));
            vstd::set_lib::lemma_int_range(0, n as int);
            assert(vstd::set_lib::set_int_range(0, n as int).contains(a));
            assert(s.len() == n - 1);
            vstd::set_lib::lemma_len_subset(img, s);
        }
    }
}

/// The image of an injective sequence has as many elements as the sequence.
proof fn lemma_injective_image_card(p: Seq<usize>)
    requires
        forall|i: int, j: int| 0 <= i < j < p.len() ==> p[i] != p[j],
    ensures
        Set::new(|x: int| exists|t: int| 0 <= t < p.len() && p[t] == x).finite(),
        Set::new(|x: int| exists|t: int| 0 <= t < p.len() && p[t] == x).len() == p.len(),
    decreases p.len(),
{
    let img = Set::new(|x: int| exists|t: int| 0 <= t < p.len() && p[t] == x);
    if p.len() == 0 {
        assert(img =~= Set::<int>::empty());
    } else {
        let q = p.drop_last();
        lemma_injective_image_card(q);
        let qimg = Set::new(|x: int| exists|t: int| 0 <= t < q.len() && q[t] == x);
        let last = p[p.len() - 1] as int;
        assert forall|x: int| img.contains(x) <==> qimg.insert(last).contains(x) by {
            if img.contains(x) {
                let t = choose|t: int| 0 <= t < p.len() && p[t] == x;
                if t < p.len() - 1 {
                    assert(q[t] == p[t]);
                }
            }
            if qimg.contains(x) {
                let t = choose|t: int| 0 <= t < q.len() && q[t] == x;
                assert(p[t] == q[t]);
            }
        }
        assert(img =~= qimg.insert(last));
        assert(!qimg.contains(last)) by {
            if qimg.contains(last) {
                let t = choose|t: int| 0 <= t < q.len() && q[t] == last;
                assert(p[t] == q[t]);
            }
        }
    }
}

/// Permuting by `p` and then by its inverse gives back the sequence it started from.
pub proof fn lemma_permute_inverse_roundtrip<T>(s: Seq<T>, p: Seq<usize>, inv: Seq<usize>)
    requires
        s.len() == p.len(),
        is_permutation(p, p.len()),
        is_inverse_permutation(inv, p),
        is_permutation(inv, p.len()),
    ensures
        permute_seq(permute_seq(s, p), inv) == s,
{
    lemma_permutation_surjective(p);
    let once = permute_seq(s, p);
    let twice = permute_seq(once, inv);
    assert forall|a: int| 0 <= a < s.len() implies #[trigger] twice[a] == s[a] by {
        assert(occurs(p, a));
        let t = choose|t: int| 0 <= t < p.len() && p[t] == a;
        assert(inv[p[t] as int] == t);
        assert(twice[a] == once[inv[a] as int]);
        assert(once[t] == s[p[t] as int]);
    }
    assert(twice =~= s);
}

/// Transposing by `p` and then by its inverse restores the layout.
pub proof fn lemma_transpose_roundtrip(l: Layout, p: Seq<usize>, inv: Seq<usize>, t: Layout, back: Layout)
    requires
        l.wf(),
        is_permutation(p, l.shape@.len()),
        is_inverse_permutation(inv, p),
        is_permutation(inv, p.len()),
        t.is_permuted_from(l, p),
        back.is_permuted_from(t, inv),
    ensures
        back.shape@ == l.shape@,
        back.strides@ == l.strides@,
        back.offset == l.offset,
{
    lemma_permute_inverse_roundtrip(l.shape@, p, inv);
    lemma_permute_inverse_roundtrip(l.strides@, p, inv);
}

/// Flipping an axis twice restores the layout.
pub proof fn lemma_flip_involution(l: Layout, axis: int, f: Layout, back: Layout)
    requires
        l.wf(),
        0 <= axis < l.shape@.len(),
        flip_fits(l, axis),
        f.wf(),
        f.shape@ == l.shape@,
        f.strides@ == l.strides@.update(axis, (-l.strides@[axis]) as isize),
        f.offset == flip_offset(l, axis),
        back.shape@ == f.shape@,
        back.strides@ == f.strides@.update(axis, (-f.strides@[axis]) as isize),
        back.offset == flip_offset(f, axis),
    ensures
        back.shape@ == l.shape@,
        back.strides@ == l.strides@,
        back.offset == l.offset,
{
    assert(back.strides@ =~= l.strides@);
    let d = l.shape@[axis] as int;
    let st = l.strides@[axis] as int;
    assert(f.strides@[axis] as int == -st);
    if d != 0 {
        assert((d - 1) * (-st) == -((d - 1) * st)) by (nonlinear_arith);
    }
}

} // verus!
