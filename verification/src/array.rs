//! What the operations read of an array before touching its data.

use vstd::prelude::*;

use crate::dtype::{Device, Dtype};
use crate::error::OpError;
use crate::layout::Layout;

verus! {

/// An array as the argument checks see it: its view layout, element type, device,
/// and the identity of the buffer it reads from (two arrays share storage exactly
/// when their `buffer` ids are equal).
pub struct ArrayDesc {
    pub layout: Layout,
    pub dtype: Dtype,
    pub device: Device,
    pub buffer: u64,
}

impl ArrayDesc {
    /// The shape of the array.
    pub open spec fn shape(&self) -> Seq<usize> {
        self.layout.shape@
    }
}

/// Whether two shapes are equal.
pub fn same_shape(a: &[usize], b: &[usize]) -> (r: bool)
    ensures
        r == (a@ == b@),
{
    if a.len() != b.len() {
        return false;
    }
    let mut i: usize = 0;
    while i < a.len()
        invariant
            a.len() == b.len(),
            i <= a.len(),
            forall|j: int| 0 <= j < i ==> a@[j] == b@[j],
        decreases a.len() - i,
    {
        if a[i] != b[i] {
            return false;
        }
        i = i + 1;
    }
    assert(a@ =~= b@);
    true
}

/// The `out=` argument's checks, in order: its shape, then its dtype, then its device
/// must be the expected ones.
pub open spec fn out_check(out: Option<&ArrayDesc>, shape: Seq<usize>, dtype: Dtype, device: Device) -> Option<
    OpError,
> {
    match out {
        None => None,
        Some(o) => if o.layout.shape@ != shape {
            Some(OpError::ShapeMismatch)
        } else if o.dtype != dtype {
            Some(OpError::DtypeUnsupported)
        } else if o.device != device {
            Some(OpError::DeviceMismatch)
        } else {
            None
        },
    }
}

/// Checks an `out=` argument against the expected shape, dtype and device.
pub fn check_out(out: Option<&ArrayDesc>, shape: &[usize], dtype: Dtype, device: Device) -> (r: Result<
    (),
    OpError,
>)
    ensures
        r == (match out_check(out, shape@, dtype, device) {
            None => Ok::<(), OpError>(()),
            Some(e) => Err(e),
        }),
{
    match out {
        None => Ok(()),
        Some(o) => {
            if !same_shape(o.layout.shape.as_slice(), shape) {
                Err(OpError::ShapeMismatch)
            } else if o.dtype != dtype {
                Err(OpError::DtypeUnsupported)
            } else if o.device != device {
                Err(OpError::DeviceMismatch)
            } else {
                Ok(())
            }
        },
    }
}

} // verus!
