use pyo3::exceptions::PyTypeError;
use pyo3::types::{PyInt, PyString};
use pyo3::{Py, PyAny, Python};
use qiskit_core_passes::errors::{NativeTranspilerError, PyErrSource, PyExceptionType};
use qiskit_core_passes::instruction_duration_check::{
    can_divide_by_zero, check_duration, run_instruction_duration_check,
    try_run_instruction_duration_check, DAGCircuit, DelayUnit, InstructionDurationCheckError, NodeOp,
    PackedInstruction, Param,
};

fn delay(unit: DelayUnit, params: Vec<Param>) -> PackedInstruction {
    PackedInstruction {
        op: NodeOp::Delay(unit),
        params,
    }
}

fn with_python<R>(f: impl FnOnce(Python<'_>) -> R) -> R {
    Python::initialize();
    Python::attach(f)
}

fn int_obj(py: Python<'_>, value: i64) -> Param {
    let obj: Py<PyAny> = PyInt::new(py, value).into_any().unbind();
    Param::Obj(obj)
}

fn str_obj(py: Python<'_>, value: &str) -> Param {
    let obj: Py<PyAny> = PyString::new(py, value).into_any().unbind();
    Param::Obj(obj)
}

fn dt_delay(py: Python<'_>, duration: i64) -> PackedInstruction {
    delay(DelayUnit::DT, vec![int_obj(py, duration)])
}

fn gate() -> PackedInstruction {
    PackedInstruction {
        op: NodeOp::Other,
        params: vec![Param::Float],
    }
}

fn circuit(op_nodes: Vec<PackedInstruction>) -> DAGCircuit {
    DAGCircuit {
        num_stretches: 0,
        op_nodes,
    }
}

#[test]
fn unit_alignments_need_no_rescheduling() {
    with_python(|py| {
        let dag = circuit(vec![dt_delay(py, 7), delay(DelayUnit::NS, vec![])]);
        assert!(matches!(run_instruction_duration_check(py, &dag, 1, 1), Ok(false)));
    });
}

#[test]
fn stretches_need_no_rescheduling() {
    with_python(|py| {
        let dag = DAGCircuit {
            num_stretches: 1,
            op_nodes: vec![dt_delay(py, 7)],
        };
        assert!(matches!(run_instruction_duration_check(py, &dag, 16, 16), Ok(false)));
    });
}

#[test]
fn one_unit_alignment_still_checks() {
    with_python(|py| {
        let dag = circuit(vec![delay(DelayUnit::DT, vec![])]);
        assert!(matches!(
            run_instruction_duration_check(py, &dag, 1, 16),
            Err(InstructionDurationCheckError::MissingDuration)
        ));
    });
}

#[test]
fn circuit_without_delays() {
    with_python(|py| {
        let dag = circuit(vec![gate(), gate()]);
        assert!(matches!(run_instruction_duration_check(py, &dag, 16, 32), Ok(false)));
        assert!(matches!(run_instruction_duration_check(py, &circuit(vec![]), 16, 32), Ok(false)));
        assert!(matches!(run_instruction_duration_check(py, &dag, 0, 0), Ok(false)));
    });
}

#[test]
fn aligned_delays() {
    with_python(|py| {
        let dag = circuit(vec![gate(), dt_delay(py, 160), dt_delay(py, 0), dt_delay(py, 48)]);
        assert!(matches!(run_instruction_duration_check(py, &dag, 32, 16), Ok(false)));
    });
}

#[test]
fn aligned_to_one_of_the_alignments() {
    with_python(|py| {
        let dag = circuit(vec![dt_delay(py, 24)]);
        assert!(matches!(run_instruction_duration_check(py, &dag, 16, 8), Ok(false)));
        assert!(matches!(run_instruction_duration_check(py, &dag, 8, 16), Ok(false)));
        assert!(matches!(run_instruction_duration_check(py, &dag, 16, 16), Ok(true)));
    });
}

#[test]
fn misaligned_delay_needs_rescheduling() {
    with_python(|py| {
        let dag = circuit(vec![gate(), dt_delay(py, 160), dt_delay(py, 100)]);
        assert!(matches!(run_instruction_duration_check(py, &dag, 16, 32), Ok(true)));
    });
}

#[test]
fn swapped_alignments_give_the_same_answer() {
    with_python(|py| {
        let dag = circuit(vec![dt_delay(py, 100)]);
        assert!(matches!(run_instruction_duration_check(py, &dag, 32, 16), Ok(true)));
        assert!(matches!(run_instruction_duration_check(py, &dag, 16, 32), Ok(true)));
        let dag = circuit(vec![dt_delay(py, 96)]);
        assert!(matches!(run_instruction_duration_check(py, &dag, 32, 5), Ok(false)));
        assert!(matches!(run_instruction_duration_check(py, &dag, 5, 32), Ok(false)));
    });
}

#[test]
fn zero_pulse_alignment_with_unit_acquire() {
    with_python(|py| {
        let dag = circuit(vec![dt_delay(py, 33)]);
        assert!(matches!(run_instruction_duration_check(py, &dag, 1, 0), Ok(false)));
    });
}

#[test]
fn missing_duration() {
    with_python(|py| {
        let dag = circuit(vec![gate(), delay(DelayUnit::DT, vec![])]);
        assert!(matches!(
            run_instruction_duration_check(py, &dag, 16, 16),
            Err(InstructionDurationCheckError::MissingDuration)
        ));
    });
}

#[test]
fn missing_duration_is_checked_before_the_unit() {
    with_python(|py| {
        let dag = circuit(vec![delay(DelayUnit::NS, vec![])]);
        assert!(matches!(
            run_instruction_duration_check(py, &dag, 16, 16),
            Err(InstructionDurationCheckError::MissingDuration)
        ));
    });
}

#[test]
fn duration_not_in_dt() {
    with_python(|py| {
        for unit in [
            DelayUnit::NS,
            DelayUnit::PS,
            DelayUnit::US,
            DelayUnit::MS,
            DelayUnit::S,
            DelayUnit::EXPR,
        ] {
            let dag = circuit(vec![delay(unit, vec![int_obj(py, 160)])]);
            assert!(matches!(
                run_instruction_duration_check(py, &dag, 16, 16),
                Err(InstructionDurationCheckError::NoDTUnit)
            ));
        }
    });
}

#[test]
fn duration_not_an_integer_object() {
    with_python(|py| {
        let dag = circuit(vec![delay(DelayUnit::DT, vec![Param::Float])]);
        assert!(matches!(
            run_instruction_duration_check(py, &dag, 16, 16),
            Err(InstructionDurationCheckError::IncorrectDurationUnit)
        ));
        let dag = circuit(vec![delay(DelayUnit::DT, vec![Param::ParameterExpression])]);
        assert!(matches!(
            run_instruction_duration_check(py, &dag, 16, 16),
            Err(InstructionDurationCheckError::IncorrectDurationUnit)
        ));
    });
}

#[test]
fn duration_extraction_fails() {
    with_python(|py| {
        let dag = circuit(vec![delay(DelayUnit::DT, vec![str_obj(py, "160")])]);
        assert!(matches!(
            run_instruction_duration_check(py, &dag, 16, 16),
            Err(InstructionDurationCheckError::PythonIntExtraction(_))
        ));
        let dag = circuit(vec![dt_delay(py, -16)]);
        assert!(matches!(
            run_instruction_duration_check(py, &dag, 16, 16),
            Err(InstructionDurationCheckError::PythonIntExtraction(_))
        ));
        let dag = circuit(vec![dt_delay(py, 1 << 33)]);
        assert!(matches!(
            run_instruction_duration_check(py, &dag, 16, 16),
            Err(InstructionDurationCheckError::PythonIntExtraction(_))
        ));
    });
}

#[test]
fn only_the_first_parameter_is_read() {
    with_python(|py| {
        let dag = circuit(vec![delay(
            DelayUnit::DT,
            vec![int_obj(py, 160), str_obj(py, "x")],
        )]);
        assert!(matches!(run_instruction_duration_check(py, &dag, 16, 16), Ok(false)));
    });
}

#[test]
fn first_decisive_node_wins() {
    with_python(|py| {
        let dag = circuit(vec![dt_delay(py, 100), delay(DelayUnit::DT, vec![])]);
        assert!(matches!(run_instruction_duration_check(py, &dag, 16, 32), Ok(true)));
        let dag = circuit(vec![delay(DelayUnit::DT, vec![]), dt_delay(py, 100)]);
        assert!(matches!(
            run_instruction_duration_check(py, &dag, 16, 32),
            Err(InstructionDurationCheckError::MissingDuration)
        ));
        let dag = circuit(vec![
            dt_delay(py, 160),
            delay(DelayUnit::US, vec![int_obj(py, 1)]),
        ]);
        assert!(matches!(
            run_instruction_duration_check(py, &dag, 16, 32),
            Err(InstructionDurationCheckError::NoDTUnit)
        ));
        let dag = circuit(vec![
            delay(DelayUnit::DT, vec![str_obj(py, "x")]),
            dt_delay(py, 100),
        ]);
        assert!(matches!(
            run_instruction_duration_check(py, &dag, 16, 32),
            Err(InstructionDurationCheckError::PythonIntExtraction(_))
        ));
    });
}

#[test]
fn deciding_on_a_read_duration() {
    assert!(check_duration(Ok(64), 16, 32).is_none());
    assert!(check_duration(Ok(40), 16, 8).is_none());
    assert!(check_duration(Ok(0), 16, 32).is_none());
    assert!(matches!(check_duration(Ok(100), 16, 32), Some(Ok(true))));
    assert!(check_duration(Ok(8), 2, 0).is_none());
    assert!(matches!(
        check_duration(Err(PyTypeError::new_err("not an int")), 16, 32),
        Some(Err(InstructionDurationCheckError::PythonIntExtraction(_)))
    ));
}

#[test]
fn zero_alignments_are_reported() {
    with_python(|py| {
        let dag = circuit(vec![gate(), dt_delay(py, 32)]);
        assert!(can_divide_by_zero(&dag, 0, 16));
        assert!(can_divide_by_zero(&dag, 16, 0));
        assert!(!can_divide_by_zero(&dag, 1, 0));
        assert!(!can_divide_by_zero(&dag, 16, 16));
        assert!(!can_divide_by_zero(&dag, 1, 1));
        let later = circuit(vec![delay(DelayUnit::NS, vec![]), dt_delay(py, 32)]);
        assert!(!can_divide_by_zero(&later, 0, 0));
        let stretched = DAGCircuit {
            num_stretches: 2,
            op_nodes: vec![dt_delay(py, 32)],
        };
        assert!(!can_divide_by_zero(&stretched, 0, 0));
    });
}

#[test]
fn try_run_answers_where_no_zero_is_divided() {
    with_python(|py| {
        let dag = circuit(vec![dt_delay(py, 32), dt_delay(py, 48)]);
        assert!(matches!(try_run_instruction_duration_check(py, &dag, 16, 0), Some(Ok(false))));
        assert!(matches!(try_run_instruction_duration_check(py, &dag, 32, 16), Some(Ok(false))));
        assert!(matches!(try_run_instruction_duration_check(py, &dag, 32, 32), Some(Ok(true))));
        let missing = circuit(vec![delay(DelayUnit::DT, vec![])]);
        assert!(matches!(
            try_run_instruction_duration_check(py, &missing, 0, 0),
            Some(Err(InstructionDurationCheckError::MissingDuration))
        ));
    });
}

#[test]
fn try_run_reports_a_division_by_zero() {
    with_python(|py| {
        let dag = circuit(vec![dt_delay(py, 32), dt_delay(py, 40)]);
        assert!(try_run_instruction_duration_check(py, &dag, 16, 0).is_none());
        assert!(try_run_instruction_duration_check(py, &dag, 0, 16).is_none());
        let bad = circuit(vec![delay(DelayUnit::DT, vec![str_obj(py, "x")])]);
        assert!(matches!(
            try_run_instruction_duration_check(py, &bad, 0, 0),
            Some(Err(InstructionDurationCheckError::PythonIntExtraction(_)))
        ));
    });
}

#[test]
fn error_messages() {
    assert_eq!(
        InstructionDurationCheckError::MissingDuration.to_string(),
        "Delay instruction missing duration parameter"
    );
    assert_eq!(
        InstructionDurationCheckError::NoDTUnit.to_string(),
        "Delay duration must have dt unit for checking alignment."
    );
    assert_eq!(
        InstructionDurationCheckError::IncorrectDurationUnit.to_string(),
        "The provided Delay duration is not in terms of dt."
    );
}

#[test]
fn extraction_error_message_is_the_python_one() {
    with_python(|_py| {
        let err = InstructionDurationCheckError::PythonIntExtraction(PyTypeError::new_err(
            "not an int",
        ));
        assert_eq!(err.to_string(), "TypeError: not an int");
    });
}

fn new_exception(source: PyErrSource) -> (PyExceptionType, String) {
    match source {
        PyErrSource::New(kind, message) => (kind, message),
        PyErrSource::Existing(_) => panic!("expected a new exception"),
    }
}

#[test]
fn duration_errors_as_python_exceptions() {
    assert_eq!(
        new_exception(InstructionDurationCheckError::MissingDuration.into_py_err_source()),
        (
            PyExceptionType::ValueError,
            "Delay instruction missing duration parameter".to_string()
        )
    );
    assert_eq!(
        new_exception(InstructionDurationCheckError::NoDTUnit.into_py_err_source()),
        (
            PyExceptionType::TranspilerError,
            "Delay duration must have dt unit for checking alignment.".to_string()
        )
    );
    assert_eq!(
        new_exception(InstructionDurationCheckError::IncorrectDurationUnit.into_py_err_source()),
        (
            PyExceptionType::TranspilerError,
            "The provided Delay duration is not in terms of dt.".to_string()
        )
    );
    let err = PyTypeError::new_err("not an int");
    assert!(matches!(
        InstructionDurationCheckError::PythonIntExtraction(err).into_py_err_source(),
        PyErrSource::Existing(_)
    ));
}

#[test]
fn transpiler_errors_as_python_exceptions() {
    let err: NativeTranspilerError = InstructionDurationCheckError::NoDTUnit.into();
    assert_eq!(
        new_exception(err.into_py_err_source()),
        (
            PyExceptionType::TranspilerError,
            "Delay duration must have dt unit for checking alignment.".to_string()
        )
    );
    let err: NativeTranspilerError = InstructionDurationCheckError::MissingDuration.into();
    assert_eq!(new_exception(err.into_py_err_source()).0, PyExceptionType::ValueError);
    let err: NativeTranspilerError = anyhow::Error::msg("layout failed").into();
    assert_eq!(
        new_exception(err.into_py_err_source()),
        (PyExceptionType::TranspilerError, "layout failed".to_string())
    );
    let err = NativeTranspilerError::Python(PyTypeError::new_err("boom"));
    assert!(matches!(err.into_py_err_source(), PyErrSource::Existing(_)));
}
