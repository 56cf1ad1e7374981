use vstd::prelude::*;

verus! {

/// The failures that the ballot pipeline reports to its callers.
#[derive(Clone, Copy, Debug, PartialEq, Eq, Structural)]
pub enum VoteError {
    /// An election or a ballot was looked up and is not there.
    NotFound,
    /// The proof or the signature of a ballot did not verify.
    InvalidProof,
    /// A nullifier of the ballot was already spent; nothing was stored.
    DuplicateVote,
    /// The store could not take the operation (capacity, constraint, I/O).
    StorageFailure,
    /// The election catalog could not be built.
    StartupFailure,
}

/// The text that names each failure.
pub open spec fn error_text(e: VoteError) -> Seq<char> {
    match e {
        VoteError::NotFound => "Not found"@,
        VoteError::InvalidProof => "Invalid proof"@,
        VoteError::DuplicateVote => "Duplicate vote"@,
        VoteError::StorageFailure => "Storage failure"@,
        VoteError::StartupFailure => "Startup failure"@,
    }
}

impl VoteError {
    /// Whether the failure is the caller's (as opposed to the server's).
    pub fn is_client_error(&self) -> (r: bool)
        ensures
            r == (*self == VoteError::NotFound || *self == VoteError::InvalidProof
                || *self == VoteError::DuplicateVote),
    {
        match self {
            VoteError::NotFound => true,
            VoteError::InvalidProof => true,
            VoteError::DuplicateVote => true,
            VoteError::StorageFailure => false,
            VoteError::StartupFailure => false,
        }
    }

    /// A short text describing the failure.
    pub fn message(&self) -> (r: String)
        ensures
            r@ == error_text(*self),
    {
        match self {
            VoteError::NotFound => String::from_str("Not found"),
            VoteError::InvalidProof => String::from_str("Invalid proof"),
            VoteError::DuplicateVote => String::from_str("Duplicate vote"),
            VoteError::StorageFailure => String::from_str("Storage failure"),
            VoteError::StartupFailure => String::from_str("Startup failure"),
        }
    }
}

} // verus!
