use vstd::prelude::*;

verus! {

/// The error kinds of the coordination core.
#[derive(Clone, Debug)]
pub enum FlameError {
    NotFound(String),
    InvalidConfig(String),
    InvalidState(String),
    Internal(String),
    Network(String),
    Storage(String),
    Uninitialized,
}

/// The status that a remote caller receives for an outcome.
#[derive(Clone, Copy, Debug, PartialEq, Eq, Structural)]
pub enum StatusCode {
    Success,
    InvalidArgument,
    NotFound,
    FailedPrecondition,
    Internal,
    Unavailable,
}

/// The status code of an error: a missing record is `NotFound`, a verb that
/// is not legal in the current state is `FailedPrecondition`, a bad input is
/// `InvalidArgument`, a dropped connection is `Unavailable`, anything else is
/// `Internal`.
pub open spec fn spec_status_of(e: FlameError) -> StatusCode {
    match e {
        FlameError::NotFound(_) => StatusCode::NotFound,
        FlameError::InvalidState(_) => StatusCode::FailedPrecondition,
        FlameError::InvalidConfig(_) => StatusCode::InvalidArgument,
        FlameError::Network(_) => StatusCode::Unavailable,
        FlameError::Internal(_) => StatusCode::Internal,
        FlameError::Storage(_) => StatusCode::Internal,
        FlameError::Uninitialized => StatusCode::Internal,
    }
}

pub fn status_of(e: &FlameError) -> (r: StatusCode)
    ensures
        r == spec_status_of(*e),
{
    match e {
        FlameError::NotFound(_) => StatusCode::NotFound,
        FlameError::InvalidState(_) => StatusCode::FailedPrecondition,
        FlameError::InvalidConfig(_) => StatusCode::InvalidArgument,
        FlameError::Network(_) => StatusCode::Unavailable,
        FlameError::Internal(_) => StatusCode::Internal,
        FlameError::Storage(_) => StatusCode::Internal,
        FlameError::Uninitialized => StatusCode::Internal,
    }
}

} // verus!
