use vstd::prelude::*;

verus! {

/// Declares `std::io::Error` so that it can stand in a variant of the error type.
#[verifier::external_type_specification]
#[verifier::external_body]
pub struct ExIoError(std::io::Error);

/// Declares `serde_json::Error` so that it can stand in a variant of the error type.
#[verifier::external_type_specification]
#[verifier::external_body]
pub struct ExJsonError(serde_json::Error);

/// Everything that can go wrong when using or persisting a task store.
#[derive(Debug)]
pub enum ReporterError {
    /// The persisted file could not be read or written.
    IoError(std::io::Error),
    /// The persisted file could not be encoded or decoded.
    JsonError(serde_json::Error),
    /// An operation named a date that has no tasks.
    DateNotFound,
    /// An operation named a task id that the date's tasks do not hold.
    RowNotFound,
}

} // verus!
