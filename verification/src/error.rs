use vstd::prelude::*;

verus! {

/// Why an operation on a register or a matrix was rejected.
#[derive(Clone, Copy, Debug, PartialEq, Eq, Structural)]
pub enum ExecError {
    /// The number of operands differs from the arity of a gate.
    InvalidArity,
    /// An operand names a qubit that the register does not have.
    OperandOutOfRange,
    /// The same qubit is named twice among the operands.
    DuplicateOperand,
    /// A shape does not fit: a matrix whose data does not fill its shape, a
    /// register whose length is no power of two, factors whose inner
    /// dimensions differ, or an index outside a matrix.
    DimensionMismatch,
    /// No matrix is known for this gate.
    UnsupportedGate,
    /// The branch selected by a measurement has no norm to divide by.
    NumericalDegeneracy,
}

} // verus!
