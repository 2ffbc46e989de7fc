//! Operations of a circuit that users define in Rust.

use vstd::prelude::*;

verus! {

/// Describes the kind of operation associated with a custom operation type.
#[derive(Debug, Clone, Copy, PartialEq, Eq, PartialOrd, Ord, Structural)]
pub enum CustomOperationKind {
    /// A unitary operation in the circuit.
    Gate,
    /// A non-unitary operation in the circuit.
    Instruction,
}

/// An operation seen as what its kind makes it: a gate or an instruction.
#[derive(Debug, Clone, Copy)]
pub enum OperationByKind<T> {
    Gate(T),
    Instruction(T),
}

/// Sees an operation as a gate when its kind is `Gate` and as an
/// instruction when its kind is `Instruction`.
pub fn view_by_kind<T>(kind: CustomOperationKind, op: T) -> (v: OperationByKind<T>)
    ensures
        match kind {
            CustomOperationKind::Gate => v == OperationByKind::Gate(op),
            CustomOperationKind::Instruction => v == OperationByKind::Instruction(op),
        },
{
    match kind {
        CustomOperationKind::Gate => OperationByKind::Gate(op),
        CustomOperationKind::Instruction => OperationByKind::Instruction(op),
    }
}

} // verus!
