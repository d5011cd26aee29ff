//! Argument checks and plan of random generation on the GPU random-number library.

use vstd::prelude::*;

use crate::creation::creation_dtype;
use crate::dtype::{is_gpu, is_real_float, Device, Dtype};
use crate::error::OpError;
use crate::layout::seq_prod;
use crate::linalg::{check_float_whitelist, require_musa};

verus! {

/// The distribution generated: uniform on `[0, 1)` or normal (with the mean and
/// standard deviation the generator is given).
#[derive(Clone, Copy, Debug, PartialEq, Eq, Structural)]
pub enum Distribution {
    Uniform,
    Normal,
}

/// How values are generated: `count` values of `dtype` into a row-major array of
/// `shape`, after reseeding the generator with `reseed` if given; nothing is
/// generated for an empty shape.
pub struct RandomPlan {
    pub shape: Vec<usize>,
    pub dtype: Dtype,
    pub count: usize,
    pub reseed: Option<u64>,
    pub generate: bool,
    pub distribution: Distribution,
}

/// Outcome of a generation: a MUSA device, then a float32/float64 dtype (float32 by
/// default).
pub open spec fn generate_check(dtype: Option<Dtype>, device: Device) -> Result<(), OpError> {
    if !is_gpu(device) {
        Err(OpError::DeviceMismatch)
    } else if !is_real_float(creation_dtype(dtype)) {
        Err(OpError::DtypeUnsupported)
    } else {
        Ok(())
    }
}

fn generate_plan(
    shape: &[usize],
    dtype: Option<Dtype>,
    device: Device,
    seed: Option<u64>,
    distribution: Distribution,
) -> (r: Result<RandomPlan, OpError>)
    requires
        seq_prod(shape@) <= usize::MAX,
    ensures
        match generate_check(dtype, device) {
            Err(e) => r == Err::<RandomPlan, OpError>(e),
            Ok(()) => r matches Ok(p) && {
                &&& p.shape@ == shape@
                &&& p.dtype == creation_dtype(dtype)
                &&& p.count == seq_prod(shape@)
                &&& p.reseed == seed
                &&& p.generate == (p.count > 0)
                &&& p.distribution == distribution
            },
        },
{
    match require_musa(device) {
        Ok(()) => {},
        Err(e) => {
            return Err(e);
        },
    }
    let d = match dtype {
        Some(d) => d,
        None => Dtype::Float32,
    };
    match check_float_whitelist(d) {
        Ok(()) => {},
        Err(e) => {
            return Err(e);
        },
    }
    let mut s: Vec<usize> = Vec::new();
    let mut i: usize = 0;
    while i < shape.len()
        invariant
            i <= shape.len(),
            s@ == shape@.take(i as int),
        decreases shape.len() - i,
    {
        s.push(shape[i]);
        assert(s@ =~= shape@.take(i as int + 1));
        i = i + 1;
    }
    assert(s@ =~= shape@);
    let count = crate::op_builder::shape_size(shape);
    Ok(RandomPlan { shape: s, dtype: d, count, reseed: seed, generate: count > 0, distribution })
}

/// `rand(shape, dtype, device, seed)`: values uniform on `[0, 1)`.
pub fn rand(shape: &[usize], dtype: Option<Dtype>, device: Device, seed: Option<u64>) -> (r: Result<
    RandomPlan,
    OpError,
>)
    requires
        seq_prod(shape@) <= usize::MAX,
    ensures
        match generate_check(dtype, device) {
            Err(e) => r == Err::<RandomPlan, OpError>(e),
            Ok(()) => r matches Ok(p) && p.shape@ == shape@ && p.dtype == creation_dtype(dtype)
                && p.count == seq_prod(shape@) && p.reseed == seed && p.generate == (p.count > 0)
                && p.distribution == Distribution::Uniform,
        },
{
    generate_plan(shape, dtype, device, seed, Distribution::Uniform)
}

/// `randn(shape, dtype, device, seed)`: standard normal values (mean 0, deviation 1).
pub fn randn(shape: &[usize], dtype: Option<Dtype>, device: Device, seed: Option<u64>) -> (r: Result<
    RandomPlan,
    OpError,
>)
    requires
        seq_prod(shape@) <= usize::MAX,
    ensures
        match generate_check(dtype, device) {
            Err(e) => r == Err::<RandomPlan, OpError>(e),
            Ok(()) => r matches Ok(p) && p.shape@ == shape@ && p.dtype == creation_dtype(dtype)
                && p.count == seq_prod(shape@) && p.reseed == seed && p.generate == (p.count > 0)
                && p.distribution == Distribution::Normal,
        },
{
    generate_plan(shape, dtype, device, seed, Distribution::Normal)
}

} // verus!
