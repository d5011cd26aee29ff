//! NumPy broadcasting: shapes are aligned at their last dimension; in every
//! dimension the sizes must be equal or one of them must be 1.

use vstd::prelude::*;

use crate::error::OpError;
use crate::layout::Layout;

verus! {

/// Two sizes of one dimension can be broadcast together.
pub open spec fn dims_compatible(r: usize, d: usize) -> bool {
    r == 1 || d == 1 || r == d
}

/// The broadcast size of one dimension (for compatible sizes).
pub open spec fn merge_dim(r: usize, d: usize) -> usize {
    if r == 1 {
        d
    } else {
        r
    }
}

/// The largest rank among the shapes (0 for no shapes).
pub open spec fn max_ndim(shapes: Seq<Seq<usize>>) -> nat
    decreases shapes.len(),
{
    if shapes.len() == 0 {
        0
    } else {
        let m = max_ndim(shapes.drop_last());
        if shapes.last().len() > m {
            shapes.last().len()
        } else {
            m
        }
    }
}

/// `s` aligned at its last dimension inside `n` dimensions, leading dimensions 1.
pub open spec fn pad_left(s: Seq<usize>, n: nat) -> Seq<usize> {
    Seq::new(n, |i: int| if i < n - s.len() { 1usize } else { s[i - (n - s.len())] })
}

/// Same-rank shapes are compatible in every dimension.
pub open spec fn shapes_compatible(a: Seq<usize>, b: Seq<usize>) -> bool {
    &&& a.len() == b.len()
    &&& forall|i: int| 0 <= i < a.len() ==> dims_compatible(#[trigger] a[i], b[i])
}

/// Dimension-wise broadcast of two same-rank shapes.
pub open spec fn merge_shapes(a: Seq<usize>, b: Seq<usize>) -> Seq<usize> {
    Seq::new(a.len(), |i: int| merge_dim(a[i], b[i]))
}

/// `n` dimensions of size 1.
pub open spec fn ones(n: nat) -> Seq<usize> {
    Seq::new(n, |i: int| 1usize)
}

/// Broadcasts the shapes one after another, starting from `n` ones;
/// `None` when some shape does not fit.
pub open spec fn broadcast_fold(shapes: Seq<Seq<usize>>, n: nat) -> Option<Seq<usize>>
    decreases shapes.len(),
{
    if shapes.len() == 0 {
        Some(ones(n))
    } else {
        match broadcast_fold(shapes.drop_last(), n) {
            None => None,
            Some(acc) => {
                let p = pad_left(shapes.last(), n);
                if shapes_compatible(acc, p) {
                    Some(merge_shapes(acc, p))
                } else {
                    None
                }
            },
        }
    }
}

/// The broadcast shape of all the shapes, or `None` when they are incompatible.
pub open spec fn spec_broadcast_shape(shapes: Seq<Seq<usize>>) -> Option<Seq<usize>> {
    broadcast_fold(shapes, max_ndim(shapes))
}

/// The views of a list of shape vectors.
pub open spec fn shape_views(shapes: Seq<Vec<usize>>) -> Seq<Seq<usize>> {
    Seq::new(shapes.len(), |i: int| shapes[i]@)
}

proof fn lemma_max_ndim_ge(shapes: Seq<Seq<usize>>)
    ensures
        forall|i: int| 0 <= i < shapes.len() ==> #[trigger] shapes[i].len() <= max_ndim(shapes),
    decreases shapes.len(),
{
    if shapes.len() > 0 {
        lemma_max_ndim_ge(shapes.drop_last());
        assert forall|i: int| 0 <= i < shapes.len() implies #[trigger] shapes[i].len() <= max_ndim(
            shapes,
        ) by {
            if i < shapes.len() - 1 {
                assert(shapes.drop_last()[i] == shapes[i]);
            }
        }
    }
}

proof fn lemma_fold_none_extends(shapes: Seq<Seq<usize>>, n: nat, k: int, m: int)
    requires
        0 <= k <= m <= shapes.len(),
        broadcast_fold(shapes.take(k), n) is None,
    ensures
        broadcast_fold(shapes.take(m), n) is None,
    decreases m - k,
{
    if m > k {
        lemma_fold_none_extends(shapes, n, k, m - 1);
        assert(shapes.take(m).drop_last() =~= shapes.take(m - 1));
    }
}

proof fn lemma_fold_len(shapes: Seq<Seq<usize>>, n: nat)
    ensures
        broadcast_fold(shapes, n) matches Some(r) ==> r.len() == n,
    decreases shapes.len(),
{
    if shapes.len() > 0 {
        lemma_fold_len(shapes.drop_last(), n);
    }
}

/// The broadcast output shape of several input shapes (NumPy rules).
///
/// Shapes are aligned at their last dimension; in each dimension all sizes must be
/// equal or 1, and the output takes the size that is not 1. Any incompatibility
/// yields `ShapeMismatch`. No shapes at all broadcast to the 0-dim shape.
pub fn broadcast_shape(shapes: &[Vec<usize>]) -> (r: Result<Vec<usize>, OpError>)
    ensures
        match spec_broadcast_shape(shape_views(shapes@)) {
            Some(s) => r matches Ok(v) && v@ == s,
            None => r == Err::<Vec<usize>, OpError>(OpError::ShapeMismatch),
        },
{
    let ghost views = shape_views(shapes@);
    let count = shapes.len();
    // Largest rank.
    let mut max: usize = 0;
    let mut k: usize = 0;
    while k < count
        invariant
            count == shapes@.len(),
            views == shape_views(shapes@),
            k <= count,
            max as nat == max_ndim(views.take(k as int)),
        decreases count - k,
    {
        assert(views.take(k as int + 1).drop_last() =~= views.take(k as int));
        assert(views.take(k as int + 1).last() == shapes@[k as int]@);
        if shapes[k].len() > max {
            max = shapes[k].len();
        }
        k = k + 1;
    }
    assert(views.take(count as int) =~= views);
    proof {
        lemma_max_ndim_ge(views);
    }
    let n = max;
    let mut result: Vec<usize> = Vec::new();
    let mut t: usize = 0;
    while t < n
        invariant
            t <= n,
            result@ == ones(t as nat),
        decreases n - t,
    {
        result.push(1);
        assert(result@ =~= ones(t as nat + 1));
        t = t + 1;
    }
    assert(broadcast_fold(views.take(0), n as nat) == Some(ones(n as nat)));
    let mut k: usize = 0;
    while k < count
        invariant
            count == shapes@.len(),
            views == shape_views(shapes@),
            k <= count,
            n as nat == max_ndim(views),
            forall|i: int| 0 <= i < views.len() ==> #[trigger] views[i].len() <= n,
            result@.len() == n,
            broadcast_fold(views.take(k as int), n as nat) == Some(result@),
        decreases count - k,
    {
        let shape = &shapes[k];
        let len = shape.len();
        assert(views[k as int] == shape@);
        assert(len <= n);
        let offset = n - len;
        let ghost acc = result@;
        let ghost p = pad_left(shape@, n as nat);
        proof {
            assert(views.take(k as int + 1).drop_last() =~= views.take(k as int));
            assert(views.take(k as int + 1).last() == shape@);
        }
        let mut i: usize = 0;
        while i < len
            invariant
                len == shape@.len(),
                offset + len == n,
                i <= len,
                acc.len() == n,
                p == pad_left(shape@, n as nat),
                result@.len() == n,
                forall|j: int|
                    0 <= j < n ==> #[trigger] result@[j] == (if offset <= j < offset + i {
                        merge_dim(acc[j], p[j])
                    } else {
                        acc[j]
                    }),
                forall|j: int| offset <= j < offset + i ==> dims_compatible(#[trigger] acc[j], p[j]),
                k < count,
                count == shapes@.len(),
                views.len() == count,
                broadcast_fold(views.take(k as int), n as nat) == Some(acc),
                views.take(k as int + 1).drop_last() == views.take(k as int),
                views.take(k as int + 1).last() == shape@,
                n as nat == max_ndim(views),
                views == shape_views(shapes@),
            decreases len - i,
        {
            let dim = shape[i];
            let out_i = offset + i;
            assert(p[out_i as int] == dim);
            if result[out_i] == 1 {
                result.set(out_i, dim);
            } else if dim != 1 && dim != result[out_i] {
                proof {
                    assert(!dims_compatible(acc[out_i as int], p[out_i as int]));
                    assert(!shapes_compatible(acc, p));
                    assert(broadcast_fold(views.take(k as int + 1), n as nat) is None);
                    lemma_fold_none_extends(views, n as nat, k as int + 1, count as int);
                    assert(views.take(count as int) =~= views);
                }
                return Err(OpError::ShapeMismatch);
            }
            i = i + 1;
        }
        proof {
            assert forall|j: int| 0 <= j < n implies dims_compatible(#[trigger] acc[j], p[j]) by {
                if j < offset {
                    assert(p[j] == 1);
                }
            }
            assert(shapes_compatible(acc, p));
            assert forall|j: int| 0 <= j < n implies #[trigger] result@[j] == merge_shapes(
                acc,
                p,
            )[j] by {
                if j < offset {
                    assert(p[j] == 1);
                }
            }
            assert(result@ =~= merge_shapes(acc, p));
        }
        k = k + 1;
    }
    assert(views.take(count as int) =~= views);
    Ok(result)
}

// ── Laws of broadcasting ───────────────────────────────────────

/// Broadcasting two shapes does not depend on their order.
pub proof fn lemma_broadcast_commutative(a: Seq<usize>, b: Seq<usize>)
    ensures
        spec_broadcast_shape(seq![a, b]) == spec_broadcast_shape(seq![b, a]),
{
    reveal_with_fuel(broadcast_fold, 3);
    reveal_with_fuel(max_ndim, 3);
    let ab = seq![a, b];
    let ba = seq![b, a];
    assert(ab.drop_last() =~= seq![a]);
    assert(ba.drop_last() =~= seq![b]);
    assert(seq![a].drop_last() =~= Seq::<Seq<usize>>::empty());
    assert(seq![b].drop_last() =~= Seq::<Seq<usize>>::empty());
    let n = max_ndim(ab);
    assert(max_ndim(ba) == n);
    let pa = pad_left(a, n);
    let pb = pad_left(b, n);
    assert(shapes_compatible(ones(n), pa));
    assert(shapes_compatible(ones(n), pb));
    assert(merge_shapes(ones(n), pa) =~= pa);
    assert(merge_shapes(ones(n), pb) =~= pb);
    assert(shapes_compatible(pa, pb) == shapes_compatible(pb, pa));
    if shapes_compatible(pa, pb) {
        assert(merge_shapes(pa, pb) =~= merge_shapes(pb, pa));
    }
}

/// A single shape broadcasts to itself, and so does a shape with itself.
pub proof fn lemma_broadcast_idempotent(s: Seq<usize>)
    ensures
        spec_broadcast_shape(seq![s]) == Some(s),
        spec_broadcast_shape(seq![s, s]) == Some(s),
{
    reveal_with_fuel(broadcast_fold, 3);
    reveal_with_fuel(max_ndim, 3);
    assert(seq![s].drop_last() =~= Seq::<Seq<usize>>::empty());
    assert(seq![s, s].drop_last() =~= seq![s]);
    let n = s.len();
    assert(max_ndim(seq![s]) == n);
    assert(max_ndim(seq![s, s]) == n);
    assert(pad_left(s, n) =~= s);
    assert(shapes_compatible(ones(n), s));
    assert(merge_shapes(ones(n), s) =~= s);
    assert(shapes_compatible(s, s));
    assert(merge_shapes(s, s) =~= s);
}

/// The output has the largest input rank, and every input shape broadcasts to it:
/// each of its (right-aligned) sizes is 1 or the output size.
pub proof fn lemma_broadcast_covers_inputs(shapes: Seq<Seq<usize>>)
    ensures
        spec_broadcast_shape(shapes) matches Some(out) ==> {
            &&& out.len() == max_ndim(shapes)
            &&& forall|i: int| 0 <= i < shapes.len() ==> #[trigger] shapes[i].len() <= out.len()
            &&& forall|i: int, j: int|
                0 <= i < shapes.len() && 0 <= j < out.len() ==> #[trigger] pad_left(
                    shapes[i],
                    out.len(),
                )[j] == 1 || pad_left(shapes[i], out.len())[j] == out[j]
        },
{
    lemma_fold_len(shapes, max_ndim(shapes));
    lemma_max_ndim_ge(shapes);
    lemma_fold_covers(shapes, max_ndim(shapes));
}

proof fn lemma_fold_covers(shapes: Seq<Seq<usize>>, n: nat)
    requires
        forall|i: int| 0 <= i < shapes.len() ==> #[trigger] shapes[i].len() <= n,
    ensures
        broadcast_fold(shapes, n) matches Some(out) ==> forall|i: int, j: int|
            0 <= i < shapes.len() && 0 <= j < n ==> #[trigger] pad_left(shapes[i], n)[j] == 1
                || pad_left(shapes[i], n)[j] == out[j],
    decreases shapes.len(),
{
    if shapes.len() > 0 {
        let init = shapes.drop_last();
        assert forall|i: int| 0 <= i < init.len() implies #[trigger] init[i].len() <= n by {
            assert(init[i] == shapes[i]);
        }
        lemma_fold_covers(init, n);
        lemma_fold_len(init, n);
        if let Some(out) = broadcast_fold(shapes, n) {
            let acc = broadcast_fold(init, n)->0;
            let last = pad_left(shapes.last(), n);
            assert forall|i: int, j: int| 0 <= i < shapes.len() && 0 <= j < n implies #[trigger] pad_left(
                shapes[i],
                n,
            )[j] == 1 || pad_left(shapes[i], n)[j] == out[j] by {
                assert(dims_compatible(acc[j], last[j]));
                if i < shapes.len() - 1 {
                    assert(shapes[i] == init[i]);
                    assert(pad_left(init[i], n)[j] == 1 || pad_left(init[i], n)[j] == acc[j]);
                } else {
                    assert(shapes[i] == shapes.last());
                }
            }
        }
    }
}

/// Every two shapes (aligned inside `n` dimensions) are compatible in every
/// dimension.
pub open spec fn pairwise_compatible(shapes: Seq<Seq<usize>>, n: nat) -> bool {
    forall|i1: int, i2: int, j: int|
        0 <= i1 < shapes.len() && 0 <= i2 < shapes.len() && 0 <= j < n ==> dims_compatible(
            #[trigger] pad_left(shapes[i1], n)[j],
            #[trigger] pad_left(shapes[i2], n)[j],
        )
}

/// Each dimension of a broadcast result is 1 or the size of some input there.
proof fn lemma_fold_from_inputs(shapes: Seq<Seq<usize>>, n: nat)
    ensures
        broadcast_fold(shapes, n) matches Some(out) ==> forall|j: int|
            0 <= j < n && #[trigger] out[j] != 1 ==> exists|i: int|
                0 <= i < shapes.len() && pad_left(shapes[i], n)[j] == out[j],
    decreases shapes.len(),
{
    if shapes.len() > 0 {
        let init = shapes.drop_last();
        lemma_fold_from_inputs(init, n);
        lemma_fold_len(init, n);
        if let Some(out) = broadcast_fold(shapes, n) {
            let acc = broadcast_fold(init, n)->0;
            let last = pad_left(shapes.last(), n);
            assert forall|j: int| 0 <= j < n && #[trigger] out[j] != 1 implies exists|i: int|
                0 <= i < shapes.len() && pad_left(shapes[i], n)[j] == out[j] by {
                if acc[j] == 1 {
                    assert(pad_left(shapes[shapes.len() - 1], n)[j] == out[j]);
                } else {
                    let i = choose|i: int| 0 <= i < init.len() && pad_left(init[i], n)[j] == acc[j];
                    assert(shapes[i] == init[i]);
                    assert(pad_left(shapes[i], n)[j] == out[j]);
                }
            }
        }
    }
}

/// The fold fails exactly when two of the shapes are incompatible somewhere.
proof fn lemma_fold_some_iff(shapes: Seq<Seq<usize>>, n: nat)
    requires
        forall|i: int| 0 <= i < shapes.len() ==> #[trigger] shapes[i].len() <= n,
    ensures
        broadcast_fold(shapes, n) is Some <==> pairwise_compatible(shapes, n),
    decreases shapes.len(),
{
    lemma_fold_covers(shapes, n);
    if shapes.len() > 0 {
        let init = shapes.drop_last();
        assert forall|i: int| 0 <= i < init.len() implies #[trigger] init[i].len() <= n by {
            assert(init[i] == shapes[i]);
        }
        lemma_fold_some_iff(init, n);
        lemma_fold_len(init, n);
        lemma_fold_from_inputs(init, n);
        lemma_fold_covers(init, n);
        let last = pad_left(shapes.last(), n);
        if broadcast_fold(shapes, n) is Some {
            let out = broadcast_fold(shapes, n)->0;
            assert forall|i1: int, i2: int, j: int|
                0 <= i1 < shapes.len() && 0 <= i2 < shapes.len() && 0 <= j < n implies dims_compatible(
                #[trigger] pad_left(shapes[i1], n)[j],
                #[trigger] pad_left(shapes[i2], n)[j],
            ) by {
                assert(pad_left(shapes[i1], n)[j] == 1 || pad_left(shapes[i1], n)[j] == out[j]);
                assert(pad_left(shapes[i2], n)[j] == 1 || pad_left(shapes[i2], n)[j] == out[j]);
            }
        } else {
            if pairwise_compatible(shapes, n) {
                assert(pairwise_compatible(init, n)) by {
                    assert forall|i1: int, i2: int, j: int|
                        0 <= i1 < init.len() && 0 <= i2 < init.len() && 0 <= j < n implies dims_compatible(
                        #[trigger] pad_left(init[i1], n)[j],
                        #[trigger] pad_left(init[i2], n)[j],
                    ) by {
                        assert(init[i1] == shapes[i1] && init[i2] == shapes[i2]);
                        assert(dims_compatible(pad_left(shapes[i1], n)[j], pad_left(shapes[i2], n)[j]));
                    }
                }
                let acc = broadcast_fold(init, n)->0;
                assert(!shapes_compatible(acc, last));
                let j = choose|j: int| 0 <= j < acc.len() && !dims_compatible(acc[j], last[j]);
                assert(acc[j] != 1);
                let i = choose|i: int| 0 <= i < init.len() && pad_left(init[i], n)[j] == acc[j];
                assert(init[i] == shapes[i]);
                assert(shapes.last() == shapes[shapes.len() - 1]);
                assert(dims_compatible(
                    pad_left(shapes[i], n)[j],
                    pad_left(shapes[shapes.len() - 1], n)[j],
                ));
                assert(false);
            }
        }
    }
}

/// NumPy broadcasting of any number of shapes, characterized: with the shapes aligned
/// at their last dimension inside the largest rank, a broadcast shape exists exactly
/// when in every dimension all sizes other than 1 agree; it then has the largest
/// rank, and each of its dimensions is that common size, or 1 when every size there
/// is 1.
pub proof fn lemma_broadcast_characterization(shapes: Seq<Seq<usize>>)
    ensures
        spec_broadcast_shape(shapes) is Some <==> pairwise_compatible(shapes, max_ndim(shapes)),
        spec_broadcast_shape(shapes) matches Some(out) ==> {
            let n = max_ndim(shapes);
            &&& out.len() == n
            &&& forall|j: int|
                0 <= j < n ==> (#[trigger] out[j] == 1 <==> forall|i: int|
                    0 <= i < shapes.len() ==> pad_left(shapes[i], n)[j] == 1)
            &&& forall|i: int, j: int|
                0 <= i < shapes.len() && 0 <= j < n && #[trigger] pad_left(shapes[i], n)[j] != 1
                    ==> out[j] == pad_left(shapes[i], n)[j]
        },
{
    let n = max_ndim(shapes);
    lemma_max_ndim_ge(shapes);
    lemma_fold_len(shapes, n);
    lemma_fold_some_iff(shapes, n);
    lemma_fold_covers(shapes, n);
    lemma_fold_from_inputs(shapes, n);
    if let Some(out) = spec_broadcast_shape(shapes) {
        assert forall|j: int| 0 <= j < n implies (#[trigger] out[j] == 1 <==> forall|i: int|
            0 <= i < shapes.len() ==> pad_left(shapes[i], n)[j] == 1) by {
            if out[j] != 1 {
                let i = choose|i: int| 0 <= i < shapes.len() && pad_left(shapes[i], n)[j] == out[j];
                assert(pad_left(shapes[i], n)[j] != 1);
            } else {
                assert forall|i: int| 0 <= i < shapes.len() implies pad_left(shapes[i], n)[j] == 1 by {
                    assert(pad_left(shapes[i], n)[j] == 1 || pad_left(shapes[i], n)[j] == out[j]);
                }
            }
        }
    }
}

/// The largest rank is the rank of some shape (or 0 without shapes).
proof fn lemma_max_ndim_attained(shapes: Seq<Seq<usize>>)
    ensures
        shapes.len() == 0 ==> max_ndim(shapes) == 0,
        shapes.len() > 0 ==> exists|i: int| 0 <= i < shapes.len() && #[trigger] shapes[i].len() == max_ndim(shapes),
    decreases shapes.len(),
{
    if shapes.len() > 0 {
        lemma_max_ndim_attained(shapes.drop_last());
        if shapes.last().len() <= max_ndim(shapes.drop_last()) && shapes.len() > 1 {
            let i = choose|i: int| 0 <= i < shapes.drop_last().len() && #[trigger] shapes.drop_last()[i].len() == max_ndim(shapes.drop_last());
            assert(shapes[i] == shapes.drop_last()[i]);
        } else {
            assert(shapes[shapes.len() - 1].len() == max_ndim(shapes));
        }
    }
}

/// Broadcasting does not depend on the order of the shapes: listing them in the
/// order of any permutation `p` gives the same result (or failure).
pub proof fn lemma_broadcast_order_independent(shapes: Seq<Seq<usize>>, p: Seq<usize>)
    requires
        crate::layout::is_permutation(p, shapes.len()),
    ensures
        spec_broadcast_shape(crate::layout::permute_seq(shapes, p)) == spec_broadcast_shape(shapes),
{
    let q = crate::layout::permute_seq(shapes, p);
    crate::layout::lemma_permutation_surjective(p);
    lemma_max_ndim_ge(shapes);
    lemma_max_ndim_ge(q);
    lemma_max_ndim_attained(shapes);
    lemma_max_ndim_attained(q);
    let n = max_ndim(shapes);
    assert(max_ndim(q) == n) by {
        if shapes.len() > 0 {
            let i = choose|i: int| 0 <= i < shapes.len() && #[trigger] shapes[i].len() == max_ndim(shapes);
            assert(crate::layout::occurs(p, i));
            let t = choose|t: int| 0 <= t < p.len() && p[t] == i;
            assert(q[t] == shapes[i]);
            let i2 = choose|i2: int| 0 <= i2 < q.len() && #[trigger] q[i2].len() == max_ndim(q);
            assert(q[i2] == shapes[p[i2] as int]);
        }
    }
    lemma_broadcast_characterization(shapes);
    lemma_broadcast_characterization(q);
    assert(pairwise_compatible(q, n) == pairwise_compatible(shapes, n)) by {
        if pairwise_compatible(shapes, n) {
            assert forall|i1: int, i2: int, j: int|
                0 <= i1 < q.len() && 0 <= i2 < q.len() && 0 <= j < n implies dims_compatible(
                #[trigger] pad_left(q[i1], n)[j],
                #[trigger] pad_left(q[i2], n)[j],
            ) by {
                assert(q[i1] == shapes[p[i1] as int] && q[i2] == shapes[p[i2] as int]);
                assert(dims_compatible(pad_left(shapes[p[i1] as int], n)[j], pad_left(shapes[p[i2] as int], n)[j]));
            }
        }
        if pairwise_compatible(q, n) {
            assert forall|i1: int, i2: int, j: int|
                0 <= i1 < shapes.len() && 0 <= i2 < shapes.len() && 0 <= j < n implies dims_compatible(
                #[trigger] pad_left(shapes[i1], n)[j],
                #[trigger] pad_left(shapes[i2], n)[j],
            ) by {
                assert(crate::layout::occurs(p, i1) && crate::layout::occurs(p, i2));
                let t1 = choose|t: int| 0 <= t < p.len() && p[t] == i1;
                let t2 = choose|t: int| 0 <= t < p.len() && p[t] == i2;
                assert(q[t1] == shapes[i1] && q[t2] == shapes[i2]);
                assert(dims_compatible(pad_left(q[t1], n)[j], pad_left(q[t2], n)[j]));
            }
        }
    }
    if let Some(a) = spec_broadcast_shape(shapes) {
        let b = spec_broadcast_shape(q)->0;
        assert forall|j: int| 0 <= j < n implies a[j] == b[j] by {
            if a[j] != 1 {
                assert(!(forall|i: int| 0 <= i < shapes.len() ==> pad_left(shapes[i], n)[j] == 1));
                let i = choose|i: int| !(0 <= i < shapes.len() ==> pad_left(shapes[i], n)[j] == 1);
                assert(pad_left(shapes[i], n)[j] != 1);
                assert(crate::layout::occurs(p, i));
                let t = choose|t: int| 0 <= t < p.len() && p[t] == i;
                assert(q[t] == shapes[i]);
                assert(pad_left(q[t], n)[j] != 1);
            } else if b[j] != 1 {
                assert(!(forall|i: int| 0 <= i < q.len() ==> pad_left(q[i], n)[j] == 1));
                let t = choose|t: int| !(0 <= t < q.len() ==> pad_left(q[t], n)[j] == 1);
                assert(q[t] == shapes[p[t] as int]);
                assert(pad_left(shapes[p[t] as int], n)[j] != 1);
            }
        }
        assert(a =~= b);
    }
}

// ── Broadcast strides ──────────────────────────────────────────

/// Stride of output dimension `j` when `layout` is read as an operand broadcast to
/// `target`: the operand's own stride where its size equals the target size,
/// 0 where it is broadcast (size 1, or the dimension is missing).
pub open spec fn broadcast_stride_at(l: Layout, target: Seq<usize>, j: int) -> isize {
    let off = if target.len() >= l.shape@.len() {
        target.len() - l.shape@.len()
    } else {
        0
    };
    let i = j - off;
    if 0 <= i < l.shape@.len() && l.shape@[i] == target[j] {
        l.strides@[i]
    } else {
        0
    }
}

/// Per-dimension strides for reading `layout` as an operand broadcast to `target`.
///
/// The result has one entry per target dimension: the operand's stride where its
/// (right-aligned) size equals the target's, and 0 in broadcast or missing dimensions,
/// so that the element is repeated along them.
pub fn broadcast_strides(layout: &Layout, target: &[usize]) -> (r: Vec<isize>)
    requires
        layout.wf(),
    ensures
        r@.len() == target@.len(),
        forall|j: int|
            0 <= j < target@.len() ==> #[trigger] r@[j] == broadcast_stride_at(*layout, target@, j),
{
    let target_ndim = target.len();
    let ndim = layout.shape.len();
    let offset = target_ndim.saturating_sub(ndim);
    let mut strides: Vec<isize> = Vec::new();
    let mut j: usize = 0;
    while j < target_ndim
        invariant
            target_ndim == target@.len(),
            ndim == layout.shape@.len(),
            ndim == layout.strides@.len(),
            offset == (if target_ndim >= ndim {
                target_ndim - ndim
            } else {
                0
            }),
            j <= target_ndim,
            strides@.len() == j,
            forall|t: int|
                0 <= t < j ==> #[trigger] strides@[t] == broadcast_stride_at(*layout, target@, t),
        decreases target_ndim - j,
    {
        let mut s: isize = 0;
        if j >= offset && j - offset < ndim {
            let i = j - offset;
            if layout.shape[i] == target[j] {
                s = layout.strides[i];
            }
        }
        strides.push(s);
        j = j + 1;
    }
    strides
}

/// An operand already of the target shape keeps its own strides: broadcasting to
/// one's own shape changes nothing.
pub proof fn lemma_broadcast_strides_same_shape(l: Layout)
    requires
        l.wf(),
    ensures
        forall|j: int|
            0 <= j < l.shape@.len() ==> #[trigger] broadcast_stride_at(l, l.shape@, j)
                == l.strides@[j],
{
}

/// Broadcast dimensions read with stride 0: where the operand's size differs from the
/// target's, or the operand lacks the dimension, the element is repeated.
pub proof fn lemma_broadcast_strides_zero_where_broadcast(l: Layout, target: Seq<usize>)
    requires
        l.wf(),
        l.shape@.len() <= target.len(),
    ensures
        forall|j: int|
            0 <= j < target.len() - l.shape@.len() ==> #[trigger] broadcast_stride_at(l, target, j)
                == 0,
        forall|i: int|
            0 <= i < l.shape@.len() && l.shape@[i] != target[i + target.len() - l.shape@.len()]
                ==> #[trigger] broadcast_stride_at(l, target, i + target.len() - l.shape@.len())
                == 0,
{
}

} // verus!
