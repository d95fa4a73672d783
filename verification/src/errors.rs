//! Error kinds surfaced by the repository core.

use vstd::prelude::*;

verus! {

/// The error kinds the core produces. Filesystem-level failures carry the
/// offending path; engine failures carry a short description.
#[derive(Debug, Clone, PartialEq, Eq)]
pub enum RepoError {
    /// The path holds no repository (no hidden repository directory).
    NotARepository,
    /// `init` was asked to create a repository where one already exists.
    AlreadyExists,
    /// `commit` was called with an empty staging index.
    NothingToCommit,
    /// A filesystem read or write failed; the payload names the path.
    IoFailure(String),
    /// A single file could not be read or parsed during a bulk index.
    ParseFailure(String),
    /// The underlying store reported an error.
    StoreFailure(String),
    /// A malformed node IRI was handed to the store.
    InvalidIri(String),
    /// A malformed edge identifier was handed to the store.
    InvalidEdgeId(String),
}

impl RepoError {
    /// A short human-readable label for the error kind.
    pub fn kind_label(&self) -> (r: &'static str)
        ensures
            r@ == self.spec_kind_label(),
    {
        match self {
            RepoError::NotARepository => "not a repository",
            RepoError::AlreadyExists => "repository already exists",
            RepoError::NothingToCommit => "nothing to commit",
            RepoError::IoFailure(_) => "io failure",
            RepoError::ParseFailure(_) => "parse failure",
            RepoError::StoreFailure(_) => "store failure",
            RepoError::InvalidIri(_) => "invalid iri",
            RepoError::InvalidEdgeId(_) => "invalid edge id",
        }
    }

    /// What `kind_label` returns, as a sequence of characters.
    pub open spec fn spec_kind_label(&self) -> Seq<char> {
        match self {
            RepoError::NotARepository => "not a repository"@,
            RepoError::AlreadyExists => "repository already exists"@,
            RepoError::NothingToCommit => "nothing to commit"@,
            RepoError::IoFailure(_) => "io failure"@,
            RepoError::ParseFailure(_) => "parse failure"@,
            RepoError::StoreFailure(_) => "store failure"@,
            RepoError::InvalidIri(_) => "invalid iri"@,
            RepoError::InvalidEdgeId(_) => "invalid edge id"@,
        }
    }
}

} // verus!
