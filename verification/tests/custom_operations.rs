use qiskit_core_passes::custom_operations::{view_by_kind, CustomOperationKind, OperationByKind};

#[test]
fn gates_and_instructions_are_told_apart() {
    assert!(matches!(view_by_kind(CustomOperationKind::Gate, 3), OperationByKind::Gate(3)));
    assert!(matches!(
        view_by_kind(CustomOperationKind::Instruction, "x"),
        OperationByKind::Instruction("x")
    ));
}

#[test]
fn kinds_are_ordered() {
    assert!(CustomOperationKind::Gate < CustomOperationKind::Instruction);
    assert_eq!(CustomOperationKind::Gate, CustomOperationKind::Gate.clone());
}
