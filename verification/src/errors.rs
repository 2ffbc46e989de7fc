//! The errors of the compiler passes, and how each becomes a Python exception.

use vstd::prelude::*;
use pyo3::PyErr;

verus! {

/// The Python exception types that the passes raise themselves.
#[derive(Clone, Copy, Debug, PartialEq, Eq, Structural)]
pub enum PyExceptionType {
    /// Python's built-in `ValueError`.
    ValueError,
    /// The compiler's `TranspilerError`.
    TranspilerError,
}

/// How an error is handed to Python: as a new exception of a type, with a
/// message, or as a Python exception that is raised again as it is.
#[derive(Debug)]
pub enum PyErrSource {
    New(PyExceptionType, String),
    Existing(PyErr),
}

} // verus!

use crate::instruction_duration_check::InstructionDurationCheckError;
use vstd::std_specs::convert::FromSpecImpl;

verus! {

/// The errors that can happen within a compiler pass.
#[derive(Debug)]
pub enum NativeTranspilerError {
    /// An error of the instruction duration check.
    InstructionDurationCheck(InstructionDurationCheckError),
    /// A compiler error with a message.
    Generic(anyhow::Error),
    /// A Python exception.
    Python(PyErr),
}

impl NativeTranspilerError {
    /// Whether `r` is how the error is raised in Python.
    pub open spec fn raised_as(self, r: PyErrSource) -> bool {
        match self {
            NativeTranspilerError::InstructionDurationCheck(e) => e.raised_as(r),
            NativeTranspilerError::Generic(e) => r matches PyErrSource::New(
                PyExceptionType::TranspilerError,
                m,
            ) && vstd::string::to_string_from_display_ensures::<anyhow::Error>(&e, m),
            NativeTranspilerError::Python(e) => r == PyErrSource::Existing(e),
        }
    }

    /// How the error is raised in Python: an error of a pass as that pass
    /// raises it, a generic error as a `TranspilerError` with the error's
    /// message, and a Python exception again as it is.
    pub fn into_py_err_source(self) -> (r: PyErrSource)
        ensures
            self.raised_as(r),
    {
        match self {
            NativeTranspilerError::InstructionDurationCheck(e) => e.into_py_err_source(),
            NativeTranspilerError::Generic(error) => PyErrSource::New(
                PyExceptionType::TranspilerError,
                error.to_string(),
            ),
            NativeTranspilerError::Python(py_err) => PyErrSource::Existing(py_err),
        }
    }
}

impl From<InstructionDurationCheckError> for NativeTranspilerError {
    fn from(value: InstructionDurationCheckError) -> (r: Self) {
        NativeTranspilerError::InstructionDurationCheck(value)
    }
}

impl FromSpecImpl<InstructionDurationCheckError> for NativeTranspilerError {
    open spec fn obeys_from_spec() -> bool {
        true
    }

    open spec fn from_spec(v: InstructionDurationCheckError) -> Self {
        NativeTranspilerError::InstructionDurationCheck(v)
    }
}

impl From<anyhow::Error> for NativeTranspilerError {
    fn from(value: anyhow::Error) -> (r: Self) {
        NativeTranspilerError::Generic(value)
    }
}

impl FromSpecImpl<anyhow::Error> for NativeTranspilerError {
    open spec fn obeys_from_spec() -> bool {
        true
    }

    open spec fn from_spec(v: anyhow::Error) -> Self {
        NativeTranspilerError::Generic(v)
    }
}

/// Wrapping an error of the duration check into the pass errors adds no
/// layer: it is raised in Python exactly as the duration check raises it.
pub proof fn lemma_wrapping_adds_no_layer(e: InstructionDurationCheckError, r: PyErrSource)
    ensures
        <NativeTranspilerError as vstd::std_specs::convert::FromSpec<InstructionDurationCheckError>>::from_spec(e).raised_as(r)
            == e.raised_as(r),
{
}

} // verus!
