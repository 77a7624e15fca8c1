//! A small quantum-computer simulator: a register of qubits is a vector of
//! complex amplitudes, gates are square complex matrices applied to the whole
//! register, and measurement collapses the register to a classical outcome.
//!
//! All amplitudes and matrix entries are kept exactly: an entry is a Gaussian
//! integer, and each matrix (or register state) carries a scale `s`, so that
//! the denoted value of an entry `z` is `z / sqrt(2)^s`.  The single-qubit
//! Hadamard matrix, for example, is stored as `[[1, 1], [1, -1]]` with scale
//! one.  Scales add under matrix multiplication and Kronecker products, so
//! the representation is closed under every operation of the library, and
//! every contract can speak of exact integer values.

use vstd::prelude::*;

pub mod complex;
pub mod computer;
pub mod deutsch;
pub mod gate;
pub mod gates;
pub mod matrix;

verus! {

/// The failure kinds of the library.  All of them report caller misuse or a
/// machine limit at the point of the offending call; none is transient.
#[derive(Clone, Copy, Debug, PartialEq, Eq, Structural)]
pub enum Error {
    /// Incompatible operand dimensions (matrix construction, products,
    /// matrix-vector application).
    DimensionMismatch,
    /// An embedded sub-matrix would not fit inside the receiver.
    OutOfBounds,
    /// A gate's matrix dimension disagrees with its qubit count, or a gate is
    /// applied to a register of another size.
    GateSizeMismatch,
    /// `initialize` was given a basis value outside `[0, 2^num_qubits)`.
    InvalidBasisState,
    /// An operation was invoked from the wrong lifecycle state.
    InvalidState,
    /// `value` was read before the register was collapsed.
    NotYetMeasured,
    /// A result would leave the exact integer range the library supports.
    Overflow,
}

} // verus!
