//! The ways in which a codec operation can fail.

use vstd::prelude::*;

verus! {

/// Why an operation was refused. No operation returns partial data: it
/// either succeeds completely or reports one of these.
#[derive(Debug, Clone, Copy, PartialEq, Eq, Structural)]
pub enum DtfError {
    /// The bytes are not a well-formed file: wrong magic value, a header or
    /// batch cut short, or a field that cannot hold its value.
    FormatViolation,
    /// The updates are not in an order the format can represent, or new
    /// updates do not strictly follow those already stored.
    OrderingViolation,
}

impl DtfError {
    /// A short description of the failure.
    pub fn message(&self) -> (s: String)
        ensures
            s@ == (match *self {
                DtfError::FormatViolation => "format violation"@,
                DtfError::OrderingViolation => "ordering violation"@,
            }),
    {
        match self {
            DtfError::FormatViolation => "format violation".to_owned(),
            DtfError::OrderingViolation => "ordering violation".to_owned(),
        }
    }
}

} // verus!
