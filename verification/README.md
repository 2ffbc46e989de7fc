# qiskit_core_passes

Native parts of a quantum-circuit compiler, written in Verus.

- `src/instruction_duration_check.rs`: decides whether the delays of a
  circuit fit the acquisition and pulse alignments of a backend, reading each
  delay's duration from its Python object when the check reaches it, with the
  token of a thread attached to the interpreter. `run_instruction_duration_check`
  answers where no alignment can make the check divide by zero
  (`can_divide_by_zero` tells), `try_run_instruction_duration_check` answers
  everywhere and returns `None` where it would divide by zero. The result is
  specified by `check_result` and `checked_result`, and the laws of the check (when it
  is skipped, which node decides, what `Ok(true)` and `Ok(false)` say of the
  delays, symmetry of the alignments) are proof functions in the same file.
- `src/errors.rs`: the errors of the passes and the Python exception each one
  becomes.
- `src/custom_operations.rs`: the kinds of user-defined operations, and the
  choice between a gate and an instruction view by kind.
- `app/`: the Python-facing side: exception types, error types with their
  `std::error::Error` impls, and the trait-object machinery of custom
  operations.
