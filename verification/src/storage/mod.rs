pub mod codec;
pub mod names;
pub mod package;
pub mod region;
pub mod round_trip;

use std::path::PathBuf;
use vstd::prelude::*;

use crate::application::repository::RepositoryError;
use crate::application::snapshot::SnapshotError;

verus! {

#[verifier::external_type_specification]
#[verifier::external_body]
pub struct ExIoError(std::io::Error);

#[verifier::external_type_specification]
#[verifier::external_body]
pub struct ExPostcardError(postcard::Error);

#[verifier::external_type_specification]
#[verifier::external_body]
pub struct ExPathBuf(std::path::PathBuf);

/// Why reading or writing the world store failed.
#[derive(Debug)]
pub enum StoreError {
    Io(std::io::Error),
    Postcard(postcard::Error),
    Compression(std::io::Error),
    UnsupportedSchema(u32),
    Format(String),
    Validation(String),
}

/// How a store error is reported to the rest of the game: I/O trouble means the store is
/// unavailable; undecodable data means the package is corrupt; an unknown schema is reported
/// with its version; and a snapshot that fails validation is reported with the reason.
pub fn repository_error(error: StoreError) -> (result: RepositoryError)
    ensures
        match error {
            StoreError::Io(_) => result is Unavailable,
            StoreError::Postcard(_) => result is Corrupt,
            StoreError::Compression(_) => result is Corrupt,
            StoreError::UnsupportedSchema(version) => result == RepositoryError::UnsupportedSchema(version),
            StoreError::Format(text) => result matches RepositoryError::Corrupt(t) && t@ == text@,
            StoreError::Validation(text) => result matches RepositoryError::InvalidSnapshot(e) && e.0@ == text@,
        },
{
    match error {
        StoreError::Io(error) => RepositoryError::Unavailable(error.to_string()),
        StoreError::Postcard(error) => RepositoryError::Corrupt(error.to_string()),
        StoreError::Compression(error) => RepositoryError::Corrupt(error.to_string()),
        StoreError::UnsupportedSchema(version) => RepositoryError::UnsupportedSchema(version),
        StoreError::Format(text) => RepositoryError::Corrupt(text),
        StoreError::Validation(text) => RepositoryError::InvalidSnapshot(SnapshotError(text)),
    }
}

/// The world store: one `.scw` package directory per world under `root`.
#[derive(Debug)]
pub struct ScwRepository {
    pub root: PathBuf,
}

impl ScwRepository {
    /// A store rooted at `root`, converted into a path.
    pub fn new<P: Into<PathBuf>>(root: P) -> (result: ScwRepository)
        ensures
            call_ensures(P::into, (root,), result.root),
    {
        ScwRepository { root: root.into() }
    }
}

} // verus!
