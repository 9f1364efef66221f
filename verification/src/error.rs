use vstd::prelude::*;

verus! {

/// The failure kinds of the library.
///
/// Every fallible operation detects its failure condition eagerly, before
/// any partial computation, and reports it through one of these kinds.
#[derive(Clone, Copy, Debug, PartialEq, Eq, Structural)]
pub enum NumError {
    /// Zero rows or zero columns were requested at construction.
    InvalidShape,
    /// Operand dimensions are incompatible for the requested operation.
    ShapeMismatch,
    /// A square-only operation was invoked on a non-square matrix.
    NotSquare,
    /// An element access or minor extraction used an out-of-range index.
    IndexOutOfBounds,
    /// A minor was requested of a matrix with fewer than two rows or columns.
    TooSmall,
    /// A scalar or complex division had a zero divisor.
    DivisionByZero,
    /// An intermediate or final value left the `i64` range, or a requested
    /// allocation would exceed the address space.
    Overflow,
}

} // verus!
