//! Checks whether the delays of a circuit fit the timing constraints of a
//! backend, i.e. whether the circuit has to be rescheduled.

use vstd::prelude::*;
use pyo3::types::PyAnyMethods;
use pyo3::{Py, PyAny, PyErr, Python};
use crate::errors::{PyErrSource, PyExceptionType};

verus! {

/// The time unit of a delay instruction.
#[derive(Clone, Copy, Debug, PartialEq, Eq, Structural)]
pub enum DelayUnit {
    NS,
    PS,
    US,
    MS,
    S,
    DT,
    EXPR,
}

/// A parameter of an instruction, as far as the duration check reads it:
/// the check tells a Python object from the other kinds of parameter, and
/// reads a duration only from a Python object.
#[derive(Debug)]
pub enum Param {
    /// A symbolic parameter expression.
    ParameterExpression,
    /// A floating-point number.
    Float,
    /// A Python object.
    Obj(Py<PyAny>),
}

/// The operation of a node of the circuit: a delay with its unit, or any
/// other operation.
#[derive(Clone, Copy, Debug, PartialEq, Eq, Structural)]
pub enum NodeOp {
    Delay(DelayUnit),
    Other,
}

/// An operation node of the circuit with its parameters.
#[derive(Debug)]
pub struct PackedInstruction {
    pub op: NodeOp,
    pub params: Vec<Param>,
}

/// What the duration check reads of a DAG circuit: how many stretch
/// variables it has, and its operation nodes in topological order.
#[derive(Debug)]
pub struct DAGCircuit {
    pub num_stretches: usize,
    pub op_nodes: Vec<PackedInstruction>,
}

/// Why a circuit's delays could not be checked.
#[derive(Debug)]
pub enum InstructionDurationCheckError {
    /// A delay has no duration parameter.
    MissingDuration,
    /// A delay's duration is not given in units of `dt`.
    NoDTUnit,
    /// A delay's duration parameter is not a Python integer object.
    IncorrectDurationUnit,
    /// Reading the duration as a `u32` raised this Python exception.
    PythonIntExtraction(PyErr),
}

impl InstructionDurationCheckError {
    /// The message of each error that the check itself raises; an error of
    /// reading a duration carries the message of its Python exception.
    pub open spec fn fixed_message(self) -> Option<Seq<char>> {
        match self {
            InstructionDurationCheckError::MissingDuration => Some(
                "Delay instruction missing duration parameter"@,
            ),
            InstructionDurationCheckError::NoDTUnit => Some(
                "Delay duration must have dt unit for checking alignment."@,
            ),
            InstructionDurationCheckError::IncorrectDurationUnit => Some(
                "The provided Delay duration is not in terms of dt."@,
            ),
            InstructionDurationCheckError::PythonIntExtraction(_) => None,
        }
    }

    /// Whether `r` is how the error is raised in Python.
    pub open spec fn raised_as(self, r: PyErrSource) -> bool {
        match self {
            InstructionDurationCheckError::MissingDuration => r matches PyErrSource::New(
                PyExceptionType::ValueError,
                m,
            ) && Some(m@) == self.fixed_message(),
            InstructionDurationCheckError::NoDTUnit
            | InstructionDurationCheckError::IncorrectDurationUnit => r matches PyErrSource::New(
                PyExceptionType::TranspilerError,
                m,
            ) && Some(m@) == self.fixed_message(),
            InstructionDurationCheckError::PythonIntExtraction(e) => r == PyErrSource::Existing(e),
        }
    }

    /// The error's message; that of a Python exception is rendered by the
    /// running Python interpreter.
    pub fn to_string(&self) -> (s: String)
        ensures
            self.fixed_message() matches Some(m) ==> s@ == m,
            self is MissingDuration ==> s@ == "Delay instruction missing duration parameter"@,
            self is NoDTUnit ==> s@ == "Delay duration must have dt unit for checking alignment."@,
            self is IncorrectDurationUnit ==> s@ == "The provided Delay duration is not in terms of dt."@,
            self matches InstructionDurationCheckError::PythonIntExtraction(e)
                ==> vstd::string::to_string_from_display_ensures::<PyErr>(&e, s),
    {
        proof {
            reveal_strlit("Delay instruction missing duration parameter");
            reveal_strlit("Delay duration must have dt unit for checking alignment.");
            reveal_strlit("The provided Delay duration is not in terms of dt.");
        }
        match self {
            InstructionDurationCheckError::MissingDuration => String::from_str(
                "Delay instruction missing duration parameter",
            ),
            InstructionDurationCheckError::NoDTUnit => String::from_str(
                "Delay duration must have dt unit for checking alignment.",
            ),
            InstructionDurationCheckError::IncorrectDurationUnit => String::from_str(
                "The provided Delay duration is not in terms of dt.",
            ),
            InstructionDurationCheckError::PythonIntExtraction(py_err) => py_err.to_string(),
        }
    }

    /// How the error is raised in Python: a missing duration as a
    /// `ValueError`, a duration in the wrong unit or of the wrong kind as a
    /// `TranspilerError`, each with the error's message; the exception that
    /// reading a duration raised is raised again.
    pub fn into_py_err_source(self) -> (r: PyErrSource)
        ensures
            self.raised_as(r),
            self is MissingDuration <==> r matches PyErrSource::New(PyExceptionType::ValueError, _),
            (self is NoDTUnit || self is IncorrectDurationUnit) <==> r matches PyErrSource::New(
                PyExceptionType::TranspilerError,
                _,
            ),
            self is PythonIntExtraction <==> r is Existing,
            r matches PyErrSource::New(_, m) ==> Some(m@) == self.fixed_message(),
    {
        match self {
            InstructionDurationCheckError::MissingDuration => {
                PyErrSource::New(PyExceptionType::ValueError, self.to_string())
            },
            InstructionDurationCheckError::NoDTUnit
            | InstructionDurationCheckError::IncorrectDurationUnit => {
                PyErrSource::New(PyExceptionType::TranspilerError, self.to_string())
            },
            InstructionDurationCheckError::PythonIntExtraction(py_err) => PyErrSource::Existing(
                py_err,
            ),
        }
    }
}

/// Reads a Python object as a `u32` (pyo3's `Py::bind` and
/// `extract::<u32>`), on a thread attached to the Python interpreter, as the
/// token `py` shows.
///
/// Nothing is stated of the outcome: it depends on the object's type and
/// value and on the interpreter, which Verus does not see.
#[verifier::external_body]
fn extract_u32<'py>(py: Python<'py>, obj: &Py<PyAny>) -> (r: Result<u32, PyErr>) {
    obj.bind(py).extract::<u32>()
}

/// Whether `r` is what reading `obj` as a `u32` with the token `py` gave.
pub closed spec fn read_from_python<'py>(py: Python<'py>, obj: Py<PyAny>, r: Result<u32, PyErr>) -> bool {
    call_ensures(extract_u32, (py, &obj), r)
}

/// Rescheduling is never needed when both alignments are 1 or when the
/// circuit has stretch variables.
pub open spec fn rescheduling_skipped(dag: DAGCircuit, acquire_align: u32, pulse_align: u32) -> bool {
    (acquire_align == 1 && pulse_align == 1) || dag.num_stretches != 0
}

/// A duration is aligned when it is a multiple of either alignment.
pub open spec fn duration_aligned(duration: u32, acquire_align: u32, pulse_align: u32) -> bool {
    duration % acquire_align == 0 || duration % pulse_align == 0
}

/// Whether the check reads the duration of this node from a Python object:
/// it is a delay in units of `dt` whose first parameter is a Python object.
pub open spec fn reads_duration(node: PackedInstruction) -> bool {
    &&& node.op == NodeOp::Delay(DelayUnit::DT)
    &&& node.params@.len() > 0
    &&& node.params@[0] is Obj
}

/// What the check concludes from what reading a duration gave: `None` to
/// go on with the next node, `Some(r)` to stop with `r`.
pub open spec fn duration_outcome(read: Result<u32, PyErr>, acquire_align: u32, pulse_align: u32) -> Option<
    Result<bool, InstructionDurationCheckError>,
> {
    match read {
        Ok(duration) => if duration_aligned(duration, acquire_align, pulse_align) {
            None
        } else {
            Some(Ok(true))
        },
        Err(e) => Some(Err(InstructionDurationCheckError::PythonIntExtraction(e))),
    }
}

/// Whether deciding on a duration divides by a zero alignment.
pub open spec fn duration_divides_by_zero(read: Result<u32, PyErr>, acquire_align: u32, pulse_align: u32) -> bool {
    read matches Ok(duration) && (acquire_align == 0 || (duration % acquire_align != 0 && pulse_align == 0))
}

/// What the check concludes at one node, where `read` is what reading its
/// duration gave if the check reads one: `None` to go on with the next node,
/// `Some(r)` to stop with `r`.
pub open spec fn node_outcome(
    node: PackedInstruction,
    read: Result<u32, PyErr>,
    acquire_align: u32,
    pulse_align: u32,
) -> Option<Result<bool, InstructionDurationCheckError>> {
    match node.op {
        NodeOp::Other => None,
        NodeOp::Delay(unit) => {
            if node.params@.len() == 0 {
                Some(Err(InstructionDurationCheckError::MissingDuration))
            } else if unit != DelayUnit::DT {
                Some(Err(InstructionDurationCheckError::NoDTUnit))
            } else if node.params@[0] is Obj {
                duration_outcome(read, acquire_align, pulse_align)
            } else {
                Some(Err(InstructionDurationCheckError::IncorrectDurationUnit))
            }
        },
    }
}

/// A node that lets the check go on to the next node.
pub open spec fn node_passes(
    node: PackedInstruction,
    read: Result<u32, PyErr>,
    acquire_align: u32,
    pulse_align: u32,
) -> bool {
    node_outcome(node, read, acquire_align, pulse_align) is None
}

/// The result of checking the nodes from index `i` on, where `reads[j]` is
/// what reading the duration of node `j` gave.
pub open spec fn scan_from(
    nodes: Seq<PackedInstruction>,
    reads: Seq<Result<u32, PyErr>>,
    i: int,
    acquire_align: u32,
    pulse_align: u32,
) -> Result<bool, InstructionDurationCheckError>
    decreases nodes.len() - i,
{
    if i < 0 || i >= nodes.len() {
        Ok(false)
    } else {
        match node_outcome(nodes[i], reads[i], acquire_align, pulse_align) {
            Some(r) => r,
            None => scan_from(nodes, reads, i + 1, acquire_align, pulse_align),
        }
    }
}

/// The result of the duration check on a circuit, where `reads[j]` is what
/// reading the duration of node `j` gave.
pub open spec fn check_result(
    dag: DAGCircuit,
    reads: Seq<Result<u32, PyErr>>,
    acquire_align: u32,
    pulse_align: u32,
) -> Result<bool, InstructionDurationCheckError> {
    if rescheduling_skipped(dag, acquire_align, pulse_align) {
        Ok(false)
    } else {
        scan_from(dag.op_nodes@, reads, 0, acquire_align, pulse_align)
    }
}

/// Alignments under which deciding on some duration divides by zero.
pub open spec fn alignments_can_divide_by_zero(acquire_align: u32, pulse_align: u32) -> bool {
    acquire_align == 0 || (pulse_align == 0 && acquire_align != 1)
}

/// Whether the check can divide by a zero alignment: for some value read as
/// the duration of the first delay, it does. Otherwise it never does.
pub open spec fn check_can_divide_by_zero(dag: DAGCircuit, acquire_align: u32, pulse_align: u32) -> bool {
    &&& !rescheduling_skipped(dag, acquire_align, pulse_align)
    &&& alignments_can_divide_by_zero(acquire_align, pulse_align)
    &&& exists|k: int|
        #![trigger dag.op_nodes@[k]]
        0 <= k < dag.op_nodes@.len() && reads_duration(dag.op_nodes@[k]) && forall|j: int|
            0 <= j < k ==> (#[trigger] dag.op_nodes@[j]).op == NodeOp::Other
}

/// Decides a delay in units of `dt` from what reading its duration gave: the
/// check goes on when the duration is a multiple of either alignment, and
/// answers that the circuit must be rescheduled when it is not; an error of
/// reading the duration ends the check with that error.
pub fn check_duration(read: Result<u32, PyErr>, acquire_align: u32, pulse_align: u32) -> (r: Option<
    Result<bool, InstructionDurationCheckError>,
>)
    requires
        !duration_divides_by_zero(read, acquire_align, pulse_align),
    ensures
        r == duration_outcome(read, acquire_align, pulse_align),
        read matches Ok(d) ==> (r is None <==> (d % acquire_align == 0 || d % pulse_align == 0)),
        read matches Ok(d) && !(d % acquire_align == 0 || d % pulse_align == 0) ==> r == Some(
            Ok::<bool, InstructionDurationCheckError>(true),
        ),
        read matches Err(e) ==> r == Some(
            Err::<bool, InstructionDurationCheckError>(InstructionDurationCheckError::PythonIntExtraction(e)),
        ),
{
    match read {
        Ok(duration) => {
            if duration % acquire_align == 0 || duration % pulse_align == 0 {
                None
            } else {
                Some(Ok(true))
            }
        },
        Err(py_err) => Some(Err(InstructionDurationCheckError::PythonIntExtraction(py_err))),
    }
}

/// A node after which the check goes on: it neither divides by zero nor
/// stops the check.
pub open spec fn node_continues(
    node: PackedInstruction,
    read: Result<u32, PyErr>,
    acquire_align: u32,
    pulse_align: u32,
) -> bool {
    &&& !(reads_duration(node) && duration_divides_by_zero(read, acquire_align, pulse_align))
    &&& node_passes(node, read, acquire_align, pulse_align)
}

/// Whether checking the nodes from index `i` on divides by a zero
/// alignment before it stops.
pub open spec fn divides_from(
    nodes: Seq<PackedInstruction>,
    reads: Seq<Result<u32, PyErr>>,
    i: int,
    acquire_align: u32,
    pulse_align: u32,
) -> bool
    decreases nodes.len() - i,
{
    if i < 0 || i >= nodes.len() {
        false
    } else if reads_duration(nodes[i]) && duration_divides_by_zero(reads[i], acquire_align, pulse_align) {
        true
    } else {
        match node_outcome(nodes[i], reads[i], acquire_align, pulse_align) {
            Some(_) => false,
            None => divides_from(nodes, reads, i + 1, acquire_align, pulse_align),
        }
    }
}

/// The outcome of the check where it does not divide by zero, `None` where
/// it does.
pub open spec fn checked_result(
    dag: DAGCircuit,
    reads: Seq<Result<u32, PyErr>>,
    acquire_align: u32,
    pulse_align: u32,
) -> Option<Result<bool, InstructionDurationCheckError>> {
    if rescheduling_skipped(dag, acquire_align, pulse_align) {
        Some(Ok(false))
    } else if divides_from(dag.op_nodes@, reads, 0, acquire_align, pulse_align) {
        None
    } else {
        Some(scan_from(dag.op_nodes@, reads, 0, acquire_align, pulse_align))
    }
}

/// Whether the check reaches node `j`: every node before it lets it go on.
pub open spec fn node_reached(
    nodes: Seq<PackedInstruction>,
    reads: Seq<Result<u32, PyErr>>,
    j: int,
    acquire_align: u32,
    pulse_align: u32,
) -> bool {
    forall|k: int| 0 <= k < j ==> node_continues(#[trigger] nodes[k], reads[k], acquire_align, pulse_align)
}

/// Whether each duration that the check reads, `reads[j]` for node `j`, is
/// what reading the first parameter of node `j` from Python gave.
pub open spec fn reads_from_python<'py>(
    py: Python<'py>,
    dag: DAGCircuit,
    reads: Seq<Result<u32, PyErr>>,
    acquire_align: u32,
    pulse_align: u32,
) -> bool {
    !rescheduling_skipped(dag, acquire_align, pulse_align) ==> forall|j: int|
        0 <= j < dag.op_nodes@.len() && reads_duration(#[trigger] dag.op_nodes@[j]) && node_reached(
            dag.op_nodes@,
            reads,
            j,
            acquire_align,
            pulse_align,
        ) ==> (dag.op_nodes@[j].params@[0] matches Param::Obj(obj) && read_from_python(py, obj, reads[j]))
}

proof fn lemma_continuing_prefix(
    nodes: Seq<PackedInstruction>,
    reads: Seq<Result<u32, PyErr>>,
    k: int,
    i: int,
    acquire_align: u32,
    pulse_align: u32,
)
    requires
        0 <= k <= i <= nodes.len(),
        forall|j: int| k <= j < i ==> node_continues(#[trigger] nodes[j], reads[j], acquire_align, pulse_align),
    ensures
        scan_from(nodes, reads, k, acquire_align, pulse_align) == scan_from(nodes, reads, i, acquire_align, pulse_align),
        divides_from(nodes, reads, k, acquire_align, pulse_align) == divides_from(nodes, reads, i, acquire_align, pulse_align),
    decreases i - k,
{
    if k < i {
        assert(node_continues(nodes[k], reads[k], acquire_align, pulse_align));
        lemma_continuing_prefix(nodes, reads, k + 1, i, acquire_align, pulse_align);
    }
}

/// Whether deciding on a read duration divides by a zero alignment.
fn duration_divides(read: &Result<u32, PyErr>, acquire_align: u32, pulse_align: u32) -> (b: bool)
    ensures
        b == duration_divides_by_zero(*read, acquire_align, pulse_align),
{
    match read {
        Ok(duration) => acquire_align == 0 || (*duration % acquire_align != 0 && pulse_align == 0),
        Err(_) => false,
    }
}

/// Runs the duration check, reading each delay's duration from its Python
/// object when the check reaches that delay. Returns `None` where deciding on
/// a duration would divide by a zero alignment, and the check's answer
/// otherwise: `Some(Ok(true))` when some delay has a duration that is a
/// multiple of neither alignment, so that the circuit must be rescheduled,
/// `Some(Ok(false))` when none has, and the error of the first malformed
/// delay.
pub fn try_run_instruction_duration_check<'py>(
    py: Python<'py>,
    dag: &DAGCircuit,
    acquire_align: u32,
    pulse_align: u32,
) -> (r: Option<Result<bool, InstructionDurationCheckError>>)
    ensures
        exists|reads: Seq<Result<u32, PyErr>>|
            reads_from_python(py, *dag, reads, acquire_align, pulse_align) && r == #[trigger] checked_result(
                *dag,
                reads,
                acquire_align,
                pulse_align,
            ),
{
    let num_stretches: usize = dag.num_stretches;
    if (acquire_align == 1 && pulse_align == 1) || num_stretches != 0 {
        assert(checked_result(*dag, Seq::empty(), acquire_align, pulse_align) == Some(
            Ok::<bool, InstructionDurationCheckError>(false),
        ));
        return Some(Ok(false));
    }
    let ghost nodes = dag.op_nodes@;
    let ghost mut reads: Seq<Result<u32, PyErr>> = Seq::empty();
    let mut i: usize = 0;
    while i < dag.op_nodes.len()
        invariant
            nodes == dag.op_nodes@,
            i <= nodes.len(),
            reads.len() == i,
            !rescheduling_skipped(*dag, acquire_align, pulse_align),
            forall|j: int| 0 <= j < i ==> node_continues(#[trigger] nodes[j], reads[j], acquire_align, pulse_align),
            forall|j: int|
                0 <= j < i && reads_duration(#[trigger] nodes[j]) ==> (nodes[j].params@[0] matches Param::Obj(
                    obj,
                ) && read_from_python(py, obj, reads[j])),
        decreases nodes.len() - i,
    {
        let node = &dag.op_nodes[i];
        let ghost mut stop: Result<u32, PyErr> = Ok(0);
        let verdict: Option<Option<Result<bool, InstructionDurationCheckError>>> = match node.op {
            NodeOp::Other => Some(None),
            NodeOp::Delay(unit) => {
                if node.params.len() == 0 {
                    Some(Some(Err(InstructionDurationCheckError::MissingDuration)))
                } else if unit != DelayUnit::DT {
                    Some(Some(Err(InstructionDurationCheckError::NoDTUnit)))
                } else {
                    match &node.params[0] {
                        Param::Obj(obj) => {
                            let read = extract_u32(py, obj);
                            proof {
                                stop = read;
                                assert(read_from_python(py, *obj, read));
                            }
                            if duration_divides(&read, acquire_align, pulse_align) {
                                None
                            } else {
                                Some(check_duration(read, acquire_align, pulse_align))
                            }
                        },
                        _ => Some(Some(Err(InstructionDurationCheckError::IncorrectDurationUnit))),
                    }
                }
            },
        };
        let ghost next = reads.push(stop);
        assert forall|j: int| 0 <= j < i implies node_continues(#[trigger] nodes[j], next[j], acquire_align, pulse_align)
            && (reads_duration(nodes[j]) ==> (nodes[j].params@[0] matches Param::Obj(obj) && read_from_python(
            py,
            obj,
            next[j],
        ))) by {
            assert(next[j] == reads[j]);
        }
        assert(reads_duration(nodes[i as int]) ==> (nodes[i as int].params@[0] matches Param::Obj(obj)
            && read_from_python(py, obj, next[i as int])));
        proof {
            lemma_continuing_prefix(nodes, next, 0, i as int, acquire_align, pulse_align);
        }
        match verdict {
            None => {
                assert(reads_from_python(py, *dag, next, acquire_align, pulse_align));
                assert(checked_result(*dag, next, acquire_align, pulse_align) is None);
                return None;
            },
            Some(Some(r)) => {
                assert(reads_from_python(py, *dag, next, acquire_align, pulse_align));
                assert(checked_result(*dag, next, acquire_align, pulse_align) == Some(r));
                return Some(r);
            },
            Some(None) => {},
        }
        proof {
            reads = next;
        }
        i = i + 1;
    }
    proof {
        lemma_continuing_prefix(nodes, reads, 0, nodes.len() as int, acquire_align, pulse_align);
        assert(reads_from_python(py, *dag, reads, acquire_align, pulse_align));
        assert(checked_result(*dag, reads, acquire_align, pulse_align) == Some(
            Ok::<bool, InstructionDurationCheckError>(false),
        ));
    }
    Some(Ok(false))
}


proof fn lemma_no_division_with_safe_alignments(
    nodes: Seq<PackedInstruction>,
    reads: Seq<Result<u32, PyErr>>,
    i: int,
    acquire_align: u32,
    pulse_align: u32,
)
    requires
        !alignments_can_divide_by_zero(acquire_align, pulse_align),
    ensures
        !divides_from(nodes, reads, i, acquire_align, pulse_align),
    decreases nodes.len() - i,
{
    if 0 <= i < nodes.len() {
        match reads[i] {
            Ok(d) => {
                if pulse_align == 0 {
                    assert(acquire_align == 1);
                    assert(d % 1 == 0);
                }
            },
            Err(_) => {},
        }
        assert(!duration_divides_by_zero(reads[i], acquire_align, pulse_align));
        lemma_no_division_with_safe_alignments(nodes, reads, i + 1, acquire_align, pulse_align);
    }
}

proof fn lemma_no_division_before_first_delay(
    nodes: Seq<PackedInstruction>,
    reads: Seq<Result<u32, PyErr>>,
    i: int,
    acquire_align: u32,
    pulse_align: u32,
)
    requires
        0 <= i,
        forall|j: int| 0 <= j < i ==> (#[trigger] nodes[j]).op == NodeOp::Other,
        !exists|k: int|
            #![trigger nodes[k]]
            0 <= k < nodes.len() && reads_duration(nodes[k]) && forall|j: int|
                0 <= j < k ==> (#[trigger] nodes[j]).op == NodeOp::Other,
    ensures
        !divides_from(nodes, reads, i, acquire_align, pulse_align),
    decreases nodes.len() - i,
{
    if i < nodes.len() {
        assert(!reads_duration(nodes[i]));
        if nodes[i].op == NodeOp::Other {
            assert forall|j: int| 0 <= j < i + 1 implies (#[trigger] nodes[j]).op == NodeOp::Other by {
                if j < i {
                }
            }
            lemma_no_division_before_first_delay(nodes, reads, i + 1, acquire_align, pulse_align);
        }
    }
}

/// Where the check cannot divide by zero, it never does, whatever the
/// durations read.
pub proof fn lemma_no_division_without_risk(
    dag: DAGCircuit,
    reads: Seq<Result<u32, PyErr>>,
    acquire_align: u32,
    pulse_align: u32,
)
    requires
        !check_can_divide_by_zero(dag, acquire_align, pulse_align),
    ensures
        checked_result(dag, reads, acquire_align, pulse_align) == Some(check_result(dag, reads, acquire_align, pulse_align)),
{
    if !rescheduling_skipped(dag, acquire_align, pulse_align) {
        if alignments_can_divide_by_zero(acquire_align, pulse_align) {
            lemma_no_division_before_first_delay(dag.op_nodes@, reads, 0, acquire_align, pulse_align);
        } else {
            lemma_no_division_with_safe_alignments(dag.op_nodes@, reads, 0, acquire_align, pulse_align);
        }
    }
}

/// Runs the duration check: `Ok(true)` when some delay of the circuit has a
/// duration that is a multiple of neither alignment, so that the circuit must
/// be rescheduled; `Ok(false)` otherwise. The nodes are checked in order,
/// and the first malformed delay ends the check with its error. A duration
/// is read from its Python object when the check reaches its delay.
///
/// `acquire_align` and `pulse_align` are the minimum time resolutions, in
/// units of `dt`, of acquisitions and of gates. Where some duration could
/// make the check divide by a zero alignment (`can_divide_by_zero`), call
/// `try_run_instruction_duration_check` instead.
pub fn run_instruction_duration_check<'py>(
    py: Python<'py>,
    dag: &DAGCircuit,
    acquire_align: u32,
    pulse_align: u32,
) -> (r: Result<bool, InstructionDurationCheckError>)
    requires
        !check_can_divide_by_zero(*dag, acquire_align, pulse_align),
    ensures
        exists|reads: Seq<Result<u32, PyErr>>|
            reads_from_python(py, *dag, reads, acquire_align, pulse_align) && r == #[trigger] check_result(
                *dag,
                reads,
                acquire_align,
                pulse_align,
            ),
{
    let outcome = try_run_instruction_duration_check(py, dag, acquire_align, pulse_align);
    let ghost reads = choose|reads: Seq<Result<u32, PyErr>>|
        reads_from_python(py, *dag, reads, acquire_align, pulse_align) && outcome == #[trigger] checked_result(
            *dag,
            reads,
            acquire_align,
            pulse_align,
        );
    proof {
        lemma_no_division_without_risk(*dag, reads, acquire_align, pulse_align);
    }
    match outcome {
        Some(r) => r,
        None => {
            assert(false);
            Ok(false)
        },
    }
}

/// Whether the check can divide by zero: the alignments allow it, the check
/// is not skipped, and the first delay of the circuit is one whose duration
/// the check reads.
pub fn can_divide_by_zero(dag: &DAGCircuit, acquire_align: u32, pulse_align: u32) -> (b: bool)
    ensures
        b == check_can_divide_by_zero(*dag, acquire_align, pulse_align),
        b ==> exists|reads: Seq<Result<u32, PyErr>>| #[trigger] checked_result(*dag, reads, acquire_align, pulse_align) is None,
        !b ==> forall|reads: Seq<Result<u32, PyErr>>| #[trigger] checked_result(*dag, reads, acquire_align, pulse_align) is Some,
{
    proof {
        if check_can_divide_by_zero(*dag, acquire_align, pulse_align) {
            lemma_risk_is_real(*dag, acquire_align, pulse_align);
        } else {
            assert forall|reads: Seq<Result<u32, PyErr>>| #[trigger] checked_result(*dag, reads, acquire_align, pulse_align) is Some by {
                lemma_no_division_without_risk(*dag, reads, acquire_align, pulse_align);
            }
        }
    }
    first_delay_risks_division(dag, acquire_align, pulse_align)
}

/// Whether the check can divide by zero, found by looking for the first
/// delay of the circuit.
fn first_delay_risks_division(dag: &DAGCircuit, acquire_align: u32, pulse_align: u32) -> (b: bool)
    ensures
        b == check_can_divide_by_zero(*dag, acquire_align, pulse_align),
{
    if (acquire_align == 1 && pulse_align == 1) || dag.num_stretches != 0 {
        return false;
    }
    if !(acquire_align == 0 || (pulse_align == 0 && acquire_align != 1)) {
        return false;
    }
    let ghost nodes = dag.op_nodes@;
    let mut i: usize = 0;
    while i < dag.op_nodes.len()
        invariant
            nodes == dag.op_nodes@,
            i <= nodes.len(),
            forall|j: int| 0 <= j < i ==> (#[trigger] nodes[j]).op == NodeOp::Other,
            !rescheduling_skipped(*dag, acquire_align, pulse_align),
            alignments_can_divide_by_zero(acquire_align, pulse_align),
        decreases nodes.len() - i,
    {
        let node = &dag.op_nodes[i];
        match node.op {
            NodeOp::Other => {},
            NodeOp::Delay(unit) => {
                let reads = unit == DelayUnit::DT && node.params.len() > 0 && match &node.params[0] {
                    Param::Obj(_) => true,
                    _ => false,
                };
                assert(reads == reads_duration(nodes[i as int]));
                if !reads {
                    assert forall|k: int|
                        0 <= k < nodes.len() && reads_duration(#[trigger] nodes[k]) implies !(forall|j: int|
                        0 <= j < k ==> (#[trigger] nodes[j]).op == NodeOp::Other) by {
                        if k > i {
                            assert(nodes[i as int].op != NodeOp::Other);
                        }
                    }
                } else {
                    assert(reads_duration(nodes[i as int]) && forall|j: int|
                        0 <= j < i ==> (#[trigger] nodes[j]).op == NodeOp::Other);
                }
                return reads;
            },
        }
        i = i + 1;
    }
    false
}

} // verus!

verus! {

proof fn lemma_scan_all_pass(
    nodes: Seq<PackedInstruction>,
    reads: Seq<Result<u32, PyErr>>,
    i: int,
    acquire_align: u32,
    pulse_align: u32,
)
    requires
        0 <= i,
        forall|j: int| i <= j < nodes.len() ==> node_passes(#[trigger] nodes[j], reads[j], acquire_align, pulse_align),
    ensures
        scan_from(nodes, reads, i, acquire_align, pulse_align) == Ok::<bool, InstructionDurationCheckError>(false),
    decreases nodes.len() - i,
{
    if i < nodes.len() {
        assert(node_passes(nodes[i], reads[i], acquire_align, pulse_align));
        lemma_scan_all_pass(nodes, reads, i + 1, acquire_align, pulse_align);
    }
}

proof fn lemma_scan_stops(
    nodes: Seq<PackedInstruction>,
    reads: Seq<Result<u32, PyErr>>,
    i: int,
    acquire_align: u32,
    pulse_align: u32,
)
    requires
        0 <= i,
    ensures
        (forall|j: int| i <= j < nodes.len() ==> node_passes(#[trigger] nodes[j], reads[j], acquire_align, pulse_align))
            || exists|k: int|
            #![trigger nodes[k]]
            i <= k < nodes.len() && node_outcome(nodes[k], reads[k], acquire_align, pulse_align) == Some(
                scan_from(nodes, reads, i, acquire_align, pulse_align),
            ) && forall|j: int| i <= j < k ==> node_passes(#[trigger] nodes[j], reads[j], acquire_align, pulse_align),
    decreases nodes.len() - i,
{
    if i < nodes.len() {
        lemma_scan_stops(nodes, reads, i + 1, acquire_align, pulse_align);
        if !node_passes(nodes[i], reads[i], acquire_align, pulse_align) {
            assert(forall|j: int| i <= j < i ==> node_passes(#[trigger] nodes[j], reads[j], acquire_align, pulse_align));
        } else if exists|k: int|
            #![trigger nodes[k]]
            i + 1 <= k < nodes.len() && node_outcome(nodes[k], reads[k], acquire_align, pulse_align) == Some(
                scan_from(nodes, reads, i + 1, acquire_align, pulse_align),
            ) && forall|j: int| i + 1 <= j < k ==> node_passes(#[trigger] nodes[j], reads[j], acquire_align, pulse_align) {
            let k = choose|k: int|
                #![trigger nodes[k]]
                i + 1 <= k < nodes.len() && node_outcome(nodes[k], reads[k], acquire_align, pulse_align) == Some(
                    scan_from(nodes, reads, i + 1, acquire_align, pulse_align),
                ) && forall|j: int| i + 1 <= j < k ==> node_passes(#[trigger] nodes[j], reads[j], acquire_align, pulse_align);
            assert forall|j: int| i <= j < k implies node_passes(#[trigger] nodes[j], reads[j], acquire_align, pulse_align) by {
                if j != i {
                    assert(i + 1 <= j < k);
                }
            }
        } else {
            assert forall|j: int| i <= j < nodes.len() implies node_passes(#[trigger] nodes[j], reads[j], acquire_align, pulse_align) by {
                if j != i {
                    assert(i + 1 <= j < nodes.len());
                }
            }
        }
    }
}

/// When both alignments are 1, or the circuit has stretch variables, the
/// check answers that no rescheduling is needed, whatever the delays, and
/// it cannot divide by zero.
pub proof fn lemma_skipped_check_needs_no_rescheduling(
    dag: DAGCircuit,
    reads: Seq<Result<u32, PyErr>>,
    acquire_align: u32,
    pulse_align: u32,
)
    requires
        (acquire_align == 1 && pulse_align == 1) || dag.num_stretches != 0,
    ensures
        check_result(dag, reads, acquire_align, pulse_align) == Ok::<bool, InstructionDurationCheckError>(false),
        !check_can_divide_by_zero(dag, acquire_align, pulse_align),
{
}

/// The check ends at the first node that does not pass: its result is that
/// node's outcome, and every node before it passes. When every node passes,
/// the answer is that no rescheduling is needed.
pub proof fn lemma_check_is_first_stop(
    dag: DAGCircuit,
    reads: Seq<Result<u32, PyErr>>,
    acquire_align: u32,
    pulse_align: u32,
)
    requires
        !rescheduling_skipped(dag, acquire_align, pulse_align),
    ensures
        (forall|j: int| 0 <= j < dag.op_nodes@.len() ==> node_passes(#[trigger] dag.op_nodes@[j], reads[j], acquire_align, pulse_align))
            ==> check_result(dag, reads, acquire_align, pulse_align) == Ok::<bool, InstructionDurationCheckError>(false),
        (forall|j: int| 0 <= j < dag.op_nodes@.len() ==> node_passes(#[trigger] dag.op_nodes@[j], reads[j], acquire_align, pulse_align))
            || exists|k: int|
            #![trigger dag.op_nodes@[k]]
            0 <= k < dag.op_nodes@.len() && node_outcome(dag.op_nodes@[k], reads[k], acquire_align, pulse_align) == Some(
                check_result(dag, reads, acquire_align, pulse_align),
            ) && forall|j: int| 0 <= j < k ==> node_passes(#[trigger] dag.op_nodes@[j], reads[j], acquire_align, pulse_align),
{
    lemma_scan_stops(dag.op_nodes@, reads, 0, acquire_align, pulse_align);
    if forall|j: int| 0 <= j < dag.op_nodes@.len() ==> node_passes(#[trigger] dag.op_nodes@[j], reads[j], acquire_align, pulse_align) {
        lemma_scan_all_pass(dag.op_nodes@, reads, 0, acquire_align, pulse_align);
    }
}

/// The check answers that the circuit must be rescheduled only because of a
/// delay in units of `dt` whose duration was read as a multiple of neither
/// alignment, with every node before that delay passing.
pub proof fn lemma_rescheduling_has_misaligned_delay(
    dag: DAGCircuit,
    reads: Seq<Result<u32, PyErr>>,
    acquire_align: u32,
    pulse_align: u32,
)
    requires
        check_result(dag, reads, acquire_align, pulse_align) == Ok::<bool, InstructionDurationCheckError>(true),
    ensures
        exists|k: int, duration: u32|
            #![trigger dag.op_nodes@[k], duration_aligned(duration, acquire_align, pulse_align)]
            0 <= k < dag.op_nodes@.len() && reads_duration(dag.op_nodes@[k]) && reads[k] == Ok::<u32, PyErr>(duration)
                && !duration_aligned(duration, acquire_align, pulse_align)
                && forall|j: int| 0 <= j < k ==> node_passes(#[trigger] dag.op_nodes@[j], reads[j], acquire_align, pulse_align),
{
    lemma_check_is_first_stop(dag, reads, acquire_align, pulse_align);
    let nodes = dag.op_nodes@;
    let k = choose|k: int|
        #![trigger nodes[k]]
        0 <= k < nodes.len() && node_outcome(nodes[k], reads[k], acquire_align, pulse_align) == Some(
            check_result(dag, reads, acquire_align, pulse_align),
        ) && forall|j: int| 0 <= j < k ==> node_passes(#[trigger] nodes[j], reads[j], acquire_align, pulse_align);
    match reads[k] {
        Ok(duration) => {
            assert(duration_aligned(duration, acquire_align, pulse_align) == false);
        },
        _ => {},
    }
}

/// When the check runs and answers that no rescheduling is needed, every
/// delay of the circuit is in units of `dt`, has a Python object as its
/// duration, and that duration was read as a multiple of one of the
/// alignments.
pub proof fn lemma_no_rescheduling_means_aligned(
    dag: DAGCircuit,
    reads: Seq<Result<u32, PyErr>>,
    acquire_align: u32,
    pulse_align: u32,
)
    requires
        !rescheduling_skipped(dag, acquire_align, pulse_align),
        check_result(dag, reads, acquire_align, pulse_align) == Ok::<bool, InstructionDurationCheckError>(false),
    ensures
        forall|j: int|
            0 <= j < dag.op_nodes@.len() && (#[trigger] dag.op_nodes@[j]).op is Delay ==> {
                &&& reads_duration(dag.op_nodes@[j])
                &&& reads[j] matches Ok(duration)
                &&& duration_aligned(duration, acquire_align, pulse_align)
            },
{
    lemma_check_is_first_stop(dag, reads, acquire_align, pulse_align);
    let nodes = dag.op_nodes@;
    assert forall|j: int| 0 <= j < nodes.len() && (#[trigger] nodes[j]).op is Delay implies {
        &&& reads_duration(nodes[j])
        &&& reads[j] matches Ok(duration)
        &&& duration_aligned(duration, acquire_align, pulse_align)
    } by {
        if !(forall|i: int| 0 <= i < nodes.len() ==> node_passes(#[trigger] nodes[i], reads[i], acquire_align, pulse_align)) {
            let k = choose|k: int|
                #![trigger nodes[k]]
                0 <= k < nodes.len() && node_outcome(nodes[k], reads[k], acquire_align, pulse_align) == Some(
                    check_result(dag, reads, acquire_align, pulse_align),
                ) && forall|i: int| 0 <= i < k ==> node_passes(#[trigger] nodes[i], reads[i], acquire_align, pulse_align);
            assert(false);
        }
        assert(node_passes(nodes[j], reads[j], acquire_align, pulse_align));
    }
}

proof fn lemma_no_delays_pass(
    nodes: Seq<PackedInstruction>,
    reads: Seq<Result<u32, PyErr>>,
    acquire_align: u32,
    pulse_align: u32,
)
    requires
        forall|j: int| 0 <= j < nodes.len() ==> (#[trigger] nodes[j]).op == NodeOp::Other,
    ensures
        forall|j: int| 0 <= j < nodes.len() ==> node_passes(#[trigger] nodes[j], reads[j], acquire_align, pulse_align),
{
}

/// A circuit without delays never needs rescheduling, and its check cannot
/// divide by zero.
pub proof fn lemma_no_delays_no_rescheduling(
    dag: DAGCircuit,
    reads: Seq<Result<u32, PyErr>>,
    acquire_align: u32,
    pulse_align: u32,
)
    requires
        forall|j: int| 0 <= j < dag.op_nodes@.len() ==> (#[trigger] dag.op_nodes@[j]).op == NodeOp::Other,
    ensures
        check_result(dag, reads, acquire_align, pulse_align) == Ok::<bool, InstructionDurationCheckError>(false),
        !check_can_divide_by_zero(dag, acquire_align, pulse_align),
{
    lemma_no_delays_pass(dag.op_nodes@, reads, acquire_align, pulse_align);
    lemma_scan_all_pass(dag.op_nodes@, reads, 0, acquire_align, pulse_align);
    if check_can_divide_by_zero(dag, acquire_align, pulse_align) {
        let k = choose|k: int|
            #![trigger dag.op_nodes@[k]]
            0 <= k < dag.op_nodes@.len() && reads_duration(dag.op_nodes@[k]) && forall|j: int|
                0 <= j < k ==> (#[trigger] dag.op_nodes@[j]).op == NodeOp::Other;
        assert(dag.op_nodes@[k].op == NodeOp::Other);
    }
}

/// The check reads no duration from a circuit whose delays are all
/// malformed or which has none: the answer is then the same whatever a
/// reading would give.
pub proof fn lemma_result_without_reading(
    dag: DAGCircuit,
    reads1: Seq<Result<u32, PyErr>>,
    reads2: Seq<Result<u32, PyErr>>,
    acquire_align: u32,
    pulse_align: u32,
)
    requires
        forall|j: int| 0 <= j < dag.op_nodes@.len() ==> !reads_duration(#[trigger] dag.op_nodes@[j]),
    ensures
        check_result(dag, reads1, acquire_align, pulse_align) == check_result(dag, reads2, acquire_align, pulse_align),
{
    lemma_scan_without_reading(dag.op_nodes@, reads1, reads2, 0, acquire_align, pulse_align);
}

proof fn lemma_scan_without_reading(
    nodes: Seq<PackedInstruction>,
    reads1: Seq<Result<u32, PyErr>>,
    reads2: Seq<Result<u32, PyErr>>,
    i: int,
    acquire_align: u32,
    pulse_align: u32,
)
    requires
        forall|j: int| 0 <= j < nodes.len() ==> !reads_duration(#[trigger] nodes[j]),
    ensures
        scan_from(nodes, reads1, i, acquire_align, pulse_align) == scan_from(nodes, reads2, i, acquire_align, pulse_align),
    decreases nodes.len() - i,
{
    if 0 <= i < nodes.len() {
        assert(!reads_duration(nodes[i]));
        lemma_scan_without_reading(nodes, reads1, reads2, i + 1, acquire_align, pulse_align);
    }
}

proof fn lemma_scan_symmetric(
    nodes: Seq<PackedInstruction>,
    reads: Seq<Result<u32, PyErr>>,
    i: int,
    acquire_align: u32,
    pulse_align: u32,
)
    ensures
        scan_from(nodes, reads, i, acquire_align, pulse_align) == scan_from(nodes, reads, i, pulse_align, acquire_align),
    decreases nodes.len() - i,
{
    if 0 <= i < nodes.len() {
        lemma_scan_symmetric(nodes, reads, i + 1, acquire_align, pulse_align);
        assert(node_outcome(nodes[i], reads[i], acquire_align, pulse_align) == node_outcome(
            nodes[i],
            reads[i],
            pulse_align,
            acquire_align,
        ));
    }
}

/// The two alignments play the same part: swapping them does not change
/// the answer.
pub proof fn lemma_alignments_symmetric(
    dag: DAGCircuit,
    reads: Seq<Result<u32, PyErr>>,
    acquire_align: u32,
    pulse_align: u32,
)
    ensures
        check_result(dag, reads, acquire_align, pulse_align) == check_result(dag, reads, pulse_align, acquire_align),
{
    lemma_scan_symmetric(dag.op_nodes@, reads, 0, acquire_align, pulse_align);
}

/// Where the check can divide by zero, it does for some reading: the first
/// delay of the circuit has its duration read, and reading it as 1 divides
/// by a zero alignment.
pub proof fn lemma_division_by_zero_is_reachable(dag: DAGCircuit, acquire_align: u32, pulse_align: u32)
    requires
        check_can_divide_by_zero(dag, acquire_align, pulse_align),
    ensures
        duration_divides_by_zero(Ok(1), acquire_align, pulse_align),
{
    if acquire_align != 0 {
        assert(1u32 % acquire_align == 1) by (nonlinear_arith)
            requires
                acquire_align > 1,
        ;
    }
}


/// A node that is not a delay never stops the check.
pub proof fn lemma_other_nodes_pass(
    node: PackedInstruction,
    read: Result<u32, PyErr>,
    acquire_align: u32,
    pulse_align: u32,
)
    requires
        node.op == NodeOp::Other,
    ensures
        node_outcome(node, read, acquire_align, pulse_align) is None,
{
}

/// A delay without parameters ends the check with `MissingDuration`,
/// whatever its unit.
pub proof fn lemma_delay_without_parameters(
    node: PackedInstruction,
    read: Result<u32, PyErr>,
    acquire_align: u32,
    pulse_align: u32,
)
    requires
        node.op is Delay,
        node.params@.len() == 0,
    ensures
        node_outcome(node, read, acquire_align, pulse_align) == Some(
            Err::<bool, InstructionDurationCheckError>(InstructionDurationCheckError::MissingDuration),
        ),
{
}

/// A delay with parameters whose unit is not `dt` ends the check with
/// `NoDTUnit`, whatever the kind of its first parameter and whatever a read
/// would give.
pub proof fn lemma_delay_not_in_dt(
    node: PackedInstruction,
    unit: DelayUnit,
    read: Result<u32, PyErr>,
    acquire_align: u32,
    pulse_align: u32,
)
    requires
        node.op == NodeOp::Delay(unit),
        unit != DelayUnit::DT,
        node.params@.len() > 0,
    ensures
        node_outcome(node, read, acquire_align, pulse_align) == Some(
            Err::<bool, InstructionDurationCheckError>(InstructionDurationCheckError::NoDTUnit),
        ),
        !reads_duration(node),
{
}

/// A delay in `dt` whose first parameter is not a Python object ends the
/// check with `IncorrectDurationUnit`, and no duration is read from it.
pub proof fn lemma_dt_delay_without_object(
    node: PackedInstruction,
    read: Result<u32, PyErr>,
    acquire_align: u32,
    pulse_align: u32,
)
    requires
        node.op == NodeOp::Delay(DelayUnit::DT),
        node.params@.len() > 0,
        !(node.params@[0] is Obj),
    ensures
        node_outcome(node, read, acquire_align, pulse_align) == Some(
            Err::<bool, InstructionDurationCheckError>(InstructionDurationCheckError::IncorrectDurationUnit),
        ),
        !reads_duration(node),
{
}

/// A delay in `dt` whose first parameter is a Python object has its
/// duration read. With a duration `d` read, the check goes on past it
/// exactly when `d` is a multiple of the acquire or of the pulse alignment,
/// and otherwise answers that the circuit must be rescheduled; an error of
/// reading ends the check with that error.
pub proof fn lemma_dt_delay_with_object(
    node: PackedInstruction,
    read: Result<u32, PyErr>,
    acquire_align: u32,
    pulse_align: u32,
)
    requires
        node.op == NodeOp::Delay(DelayUnit::DT),
        node.params@.len() > 0,
        node.params@[0] is Obj,
    ensures
        reads_duration(node),
        read matches Ok(d) ==> (node_outcome(node, read, acquire_align, pulse_align) is None <==> (d
            % acquire_align == 0 || d % pulse_align == 0)),
        read matches Ok(d) && !(d % acquire_align == 0 || d % pulse_align == 0) ==> node_outcome(
            node,
            read,
            acquire_align,
            pulse_align,
        ) == Some(Ok::<bool, InstructionDurationCheckError>(true)),
        read matches Err(e) ==> node_outcome(node, read, acquire_align, pulse_align) == Some(
            Err::<bool, InstructionDurationCheckError>(InstructionDurationCheckError::PythonIntExtraction(e)),
        ),
{
}

/// Unless both alignments are 1 or the circuit has stretch variables, the
/// first delay of a circuit decides when it stops the check: the answer of
/// the whole check is then what that delay gives, whatever follows it.
pub proof fn lemma_first_delay_decides(
    dag: DAGCircuit,
    reads: Seq<Result<u32, PyErr>>,
    k: int,
    acquire_align: u32,
    pulse_align: u32,
)
    requires
        !(acquire_align == 1 && pulse_align == 1),
        dag.num_stretches == 0,
        0 <= k < dag.op_nodes@.len(),
        forall|j: int| 0 <= j < k ==> (#[trigger] dag.op_nodes@[j]).op == NodeOp::Other,
        node_outcome(dag.op_nodes@[k], reads[k], acquire_align, pulse_align) is Some,
    ensures
        Some(check_result(dag, reads, acquire_align, pulse_align)) == node_outcome(
            dag.op_nodes@[k],
            reads[k],
            acquire_align,
            pulse_align,
        ),
        (dag.op_nodes@[k].op matches NodeOp::Delay(unit) && unit != DelayUnit::DT
            && dag.op_nodes@[k].params@.len() > 0) ==> check_result(dag, reads, acquire_align, pulse_align)
            == Err::<bool, InstructionDurationCheckError>(InstructionDurationCheckError::NoDTUnit),
        ({
            &&& dag.op_nodes@[k].op == NodeOp::Delay(DelayUnit::DT)
            &&& dag.op_nodes@[k].params@.len() > 0
            &&& dag.op_nodes@[k].params@[0] is Obj
            &&& reads[k] matches Ok(d)
            &&& !(d % acquire_align == 0 || d % pulse_align == 0)
        }) ==> check_result(dag, reads, acquire_align, pulse_align) == Ok::<bool, InstructionDurationCheckError>(
            true,
        ),
{
    assert forall|j: int| 0 <= j < k implies node_passes(#[trigger] dag.op_nodes@[j], reads[j], acquire_align, pulse_align) by {
        assert(dag.op_nodes@[j].op == NodeOp::Other);
    }
    lemma_scan_prefix_passes(dag.op_nodes@, reads, 0, k, acquire_align, pulse_align);
}

proof fn lemma_scan_prefix_passes(
    nodes: Seq<PackedInstruction>,
    reads: Seq<Result<u32, PyErr>>,
    i: int,
    k: int,
    acquire_align: u32,
    pulse_align: u32,
)
    requires
        0 <= i <= k <= nodes.len(),
        forall|j: int| i <= j < k ==> node_passes(#[trigger] nodes[j], reads[j], acquire_align, pulse_align),
    ensures
        scan_from(nodes, reads, i, acquire_align, pulse_align) == scan_from(nodes, reads, k, acquire_align, pulse_align),
    decreases k - i,
{
    if i < k {
        assert(node_passes(nodes[i], reads[i], acquire_align, pulse_align));
        lemma_scan_prefix_passes(nodes, reads, i + 1, k, acquire_align, pulse_align);
    }
}

proof fn lemma_divides_witness(
    nodes: Seq<PackedInstruction>,
    reads: Seq<Result<u32, PyErr>>,
    i: int,
    acquire_align: u32,
    pulse_align: u32,
) -> (k: int)
    requires
        0 <= i,
        divides_from(nodes, reads, i, acquire_align, pulse_align),
    ensures
        i <= k < nodes.len(),
        reads_duration(nodes[k]),
        reads[k] matches Ok(d) && (acquire_align == 0 || (d % acquire_align != 0 && pulse_align == 0)),
        forall|j: int| i <= j < k ==> node_continues(#[trigger] nodes[j], reads[j], acquire_align, pulse_align),
    decreases nodes.len() - i,
{
    if reads_duration(nodes[i]) && duration_divides_by_zero(reads[i], acquire_align, pulse_align) {
        i
    } else {
        let k = lemma_divides_witness(nodes, reads, i + 1, acquire_align, pulse_align);
        assert forall|j: int| i <= j < k implies node_continues(#[trigger] nodes[j], reads[j], acquire_align, pulse_align) by {
            if j != i {
                assert(i + 1 <= j < k);
            }
        }
        k
    }
}

/// The check answers `None` only where it reaches a delay in `dt` whose
/// duration was read as `d`, with the acquire alignment 0, or with `d` not a
/// multiple of the acquire alignment and the pulse alignment 0; every node
/// before that delay lets the check go on.
pub proof fn lemma_none_means_division_by_zero(
    dag: DAGCircuit,
    reads: Seq<Result<u32, PyErr>>,
    acquire_align: u32,
    pulse_align: u32,
)
    requires
        checked_result(dag, reads, acquire_align, pulse_align) is None,
    ensures
        exists|k: int|
            #![trigger dag.op_nodes@[k]]
            {
                &&& 0 <= k < dag.op_nodes@.len()
                &&& dag.op_nodes@[k].op == NodeOp::Delay(DelayUnit::DT)
                &&& dag.op_nodes@[k].params@.len() > 0
                &&& dag.op_nodes@[k].params@[0] is Obj
                &&& reads[k] matches Ok(d)
                &&& (acquire_align == 0 || (d % acquire_align != 0 && pulse_align == 0))
                &&& node_reached(dag.op_nodes@, reads, k, acquire_align, pulse_align)
            },
{
    let k = lemma_divides_witness(dag.op_nodes@, reads, 0, acquire_align, pulse_align);
    assert(dag.op_nodes@[k].op == NodeOp::Delay(DelayUnit::DT));
}

/// Where the check can divide by zero, some durations make it do so: for
/// them the check answers `None`, and the first delay of the circuit is in
/// `dt` with a Python object as its first parameter.
pub proof fn lemma_risk_is_real(dag: DAGCircuit, acquire_align: u32, pulse_align: u32)
    requires
        check_can_divide_by_zero(dag, acquire_align, pulse_align),
    ensures
        exists|reads: Seq<Result<u32, PyErr>>| #[trigger] checked_result(dag, reads, acquire_align, pulse_align) is None,
        exists|k: int|
            #![trigger dag.op_nodes@[k]]
            0 <= k < dag.op_nodes@.len() && dag.op_nodes@[k].op == NodeOp::Delay(DelayUnit::DT)
                && dag.op_nodes@[k].params@.len() > 0 && dag.op_nodes@[k].params@[0] is Obj
                && forall|j: int| 0 <= j < k ==> (#[trigger] dag.op_nodes@[j]).op == NodeOp::Other,
{
    let nodes = dag.op_nodes@;
    let k = choose|k: int|
        #![trigger nodes[k]]
        0 <= k < nodes.len() && reads_duration(nodes[k]) && forall|j: int|
            0 <= j < k ==> (#[trigger] nodes[j]).op == NodeOp::Other;
    let reads = Seq::new(nodes.len(), |j: int| Ok::<u32, PyErr>(1));
    lemma_division_by_zero_is_reachable(dag, acquire_align, pulse_align);
    assert(reads[k] == Ok::<u32, PyErr>(1));
    assert forall|j: int| 0 <= j < k implies node_continues(#[trigger] nodes[j], reads[j], acquire_align, pulse_align) by {
        assert(nodes[j].op == NodeOp::Other);
    }
    lemma_continuing_prefix(nodes, reads, 0, k, acquire_align, pulse_align);
    assert(divides_from(nodes, reads, k, acquire_align, pulse_align));
    assert(checked_result(dag, reads, acquire_align, pulse_align) is None);
}

} // verus!
