//! The error that the sparse kernels report.

use vstd::prelude::*;

verus! {

/// The kinds of failure of an operation.
#[derive(Clone, Copy, Debug, PartialEq, Eq, Structural)]
#[non_exhaustive]
pub enum OperationErrorType {
    /// An operand holds an entry for which the destination's pattern has no
    /// slot.
    InvalidPattern,
}

/// A failed operation: its kind and a message for people.
#[derive(Clone, Debug)]
pub struct OperationError {
    error_type: OperationErrorType,
    message: String,
}

impl OperationError {
    /// The kind, in contracts.
    pub closed spec fn spec_error_type(&self) -> OperationErrorType {
        self.error_type
    }

    /// The message, in contracts.
    pub closed spec fn spec_message(&self) -> Seq<char> {
        self.message@
    }

    /// An error of the given kind with the given message.
    pub fn from_type_and_message(error_type: OperationErrorType, message: String) -> (e: Self)
        ensures
            e.spec_error_type() == error_type,
            e.spec_message() == message@,
    {
        OperationError { error_type, message }
    }

    /// The kind of the failure.
    pub fn operation_error_type(&self) -> (t: &OperationErrorType)
        ensures
            *t == self.spec_error_type(),
    {
        &self.error_type
    }

    /// The message for people.
    pub fn message(&self) -> (m: &str)
        ensures
            m@ == self.spec_message(),
    {
        self.message.as_str()
    }
}

} // verus!
