use vstd::prelude::*;

verus! {

/// A failure reported by a store.
#[derive(Debug, Clone, PartialEq, Eq)]
pub enum RepositoryError {
    /// Any other failure of the backing store.
    Unexpected(String),
    /// No todo or label has the requested id.
    NotFound(i32),
    /// A label with the requested name exists already; carries its id.
    DuplicatedLabel(i32),
    /// The payload's text or name is refused; nothing was stored.
    Invalid(ValidationError),
}

impl RepositoryError {
    /// The HTTP status that reports this failure: 404 when nothing has the
    /// requested id, 400 for a refused payload, 500 for any other failure.
    pub fn status_code(&self) -> (r: u16)
        ensures
            r == match self {
                RepositoryError::NotFound(_) => 404u16,
                RepositoryError::Invalid(_) => 400u16,
                _ => 500u16,
            },
    {
        match self {
            RepositoryError::NotFound(_) => 404,
            RepositoryError::Invalid(_) => 400,
            _ => 500,
        }
    }
}

/// Why a payload was rejected before it reached a store.
#[derive(Debug, Clone, Copy, PartialEq, Eq)]
pub enum ValidationError {
    /// The text or name is empty.
    Empty,
    /// The text or name has more characters than allowed.
    TooLong,
}

} // verus!
