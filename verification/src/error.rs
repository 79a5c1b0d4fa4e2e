//! What can be wrong with a circuit text.
use vstd::prelude::*;

verus! {

/// An error found while reading a circuit. `line` counts the lines read so
/// far, the first line being line 1.
#[derive(Clone, Copy, Debug, PartialEq, Eq, Structural)]
pub enum ParseError {
    /// A byte above 127 was found.
    NonAscii { line: usize },
    /// The line is of none of the known forms.
    UnrecognizedLine { line: usize },
    /// The count of a repeat does not fit 32 bits.
    BadRepeatCount { line: usize },
    /// The angle code does not fit 8 bits.
    BadAngle { line: usize },
    /// The angle code is none of -2, -1, 0, 1, 2.
    AngleTooLarge { line: usize },
    /// An `End` outside a repeat block.
    EndOutsideRepeat,
    /// A Pauli letter where an operation should start.
    PauliOutOfOrder,
    /// The text ended within an operation: `found` of `expected` Paulis
    /// were read.
    UnexpectedEof { found: usize, expected: usize },
    /// Another token came within an operation: `found` of `expected`
    /// Paulis were read.
    UnexpectedToken { found: usize, expected: usize },
    /// The text ended within a repeat block.
    EofInRepeat,
    /// A repeat block within a repeat block.
    NestedRepeat,
    /// A repeat block that holds no operation.
    EmptyRepeat,
    /// The text holds no operation.
    Empty,
    /// Too few tokens to build an operation from.
    TooFewTokens,
    /// The first token is neither a rotation nor a measurement.
    InvalidStart,
    /// A gate of an unknown name.
    UnknownGate { line: usize },
    /// A number that does not fit a machine word.
    BadNumber { line: usize },
    /// A gate on a qubit that the register does not have, or on too few
    /// qubits.
    BadQubit,
    /// A gate before the declaration of the register.
    GateBeforeRegister,
    /// No version statement came before the register.
    MissingVersion,
    /// No register was declared.
    MissingRegister,
    /// A version statement after the first.
    UnexpectedVersion,
    /// A second register declaration.
    SecondRegister,
}

} // verus!
