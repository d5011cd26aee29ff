use vstd::prelude::*;

verus! {

/// The error kinds that the array operations report.
#[derive(Clone, Copy, Debug, PartialEq, Eq, Structural)]
pub enum OpError {
    /// Shapes, axes or ranks that do not fit together.
    ShapeMismatch,
    /// A dtype (or pair of dtypes) that the operation does not support.
    DtypeUnsupported,
    /// Operands on different devices, or a device the operation cannot run on.
    DeviceMismatch,
    /// The `out=` buffer is one of the buffers that the operation reads.
    AliasDetected,
    /// An index value outside the axis it selects from.
    IndexOutOfBounds,
    /// A linear system whose matrix has a zero pivot.
    Singular,
}

} // verus!
