//! Index arithmetic of the reference CPU kernels that stand in for the device
//! library: where an element of a strided view lives in its buffer.

use vstd::prelude::*;

use crate::layout::{all_positive, int_strides, nd_offset, offset_fits, remove_at};
use crate::op_builder::{cpu_offset_nd, cpu_reduce_offset, reduce_offset, reduce_offset_fits};

verus! {

/// Buffer offset of the `linear_idx`-th element (row-major enumeration) of a view,
/// as the reference kernels index a pointer: the signed offset reinterpreted as
/// `usize` (a negative offset of a flipped view wraps around).
pub fn mock_offset_nd(linear_idx: usize, shape: &[usize], strides: &[isize]) -> (r: usize)
    requires
        shape@.len() <= strides@.len(),
        all_positive(shape@),
        offset_fits(linear_idx as int, shape@, int_strides(strides@)),
    ensures
        r == (nd_offset(linear_idx as int, shape@, int_strides(strides@)) as isize) as usize,
{
    let off = cpu_offset_nd(linear_idx, shape, strides);
    off as usize
}

/// Buffer offset of input element `k` along `axis` for output element `out_idx` of a
/// reference reduction kernel (at most 32 non-reduced dimensions).
pub fn mock_reduce_offset(
    out_idx: usize,
    in_shape: &[usize],
    in_strides: &[isize],
    axis: usize,
    k: usize,
) -> (r: usize)
    requires
        in_shape@.len() == in_strides@.len(),
        axis < in_shape@.len(),
        in_shape@.len() <= 33,
        all_positive(remove_at(in_shape@, axis as int)),
        reduce_offset_fits(out_idx as int, in_shape@, int_strides(in_strides@), axis as int, k as int),
    ensures
        r == (reduce_offset(
            out_idx as int,
            in_shape@,
            int_strides(in_strides@),
            axis as int,
            k as int,
        ) as isize) as usize,
{
    cpu_reduce_offset(out_idx, in_shape, in_strides, axis, k)
}

} // verus!
