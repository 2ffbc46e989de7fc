//! Types of outside crates that the library's values carry.

use vstd::prelude::*;

verus! {

/// A Python exception, held as it came; the library never looks inside it.
#[verifier::external_type_specification]
#[verifier::external_body]
pub struct ExPyErr(pyo3::PyErr);

} // verus!

verus! {

/// An error of any kind, with the message and context it was made with.
#[verifier::external_type_specification]
#[verifier::external_body]
pub struct ExAnyhowError(anyhow::Error);

} // verus!

verus! {

/// A reference to a Python object.
#[verifier::external_type_specification]
#[verifier::external_body]
#[verifier::reject_recursive_types(T)]
pub struct ExPy<T>(pyo3::Py<T>);

/// A Python object of any type.
#[verifier::external_type_specification]
#[verifier::external_body]
pub struct ExPyAny(pyo3::PyAny);

} // verus!

verus! {

/// The token of a thread attached to the Python interpreter.
#[verifier::external_type_specification]
#[verifier::external_body]
pub struct ExPython<'py>(pyo3::Python<'py>);

} // verus!
