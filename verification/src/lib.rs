//! Native parts of a quantum-circuit compiler: the alignment check of delay
//! durations, the errors of the compiler passes and how they become Python
//! exceptions, and the kinds of user-defined custom operations.

mod foreign;
pub mod errors;
pub mod custom_operations;
pub mod instruction_duration_check;
