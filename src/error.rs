use vstd::prelude::*;

verus! {

/// A schema upgrade that a repository may need before it can be opened.
#[derive(PartialEq, Eq, Debug, Clone, Copy, Structural)]
pub enum Upgrade {
    /// The legacy `issues/` directory is renamed (or merged) into `items/`.
    IssuesToItems,
}

impl Upgrade {
    /// Human readable description of the upgrade.
    pub fn description(&self) -> (r: &'static str)
        ensures
            r@ == upgrade_description(*self),
    {
        match self {
            Upgrade::IssuesToItems => "renaming issues/ to items/",
        }
    }
}

pub open spec fn upgrade_description(u: Upgrade) -> Seq<char> {
    match u {
        Upgrade::IssuesToItems => "renaming issues/ to items/"@,
    }
}

/// Errors surfaced by the repository.
#[derive(Debug)]
pub enum RepositoryError {
    /// Item (or repository) already exists
    AlreadyExists,
    /// Item not found
    NotFound,
    /// A record file would lie outside of the record
    PathPrefixError,
    /// Upgrade required
    UpgradeRequired(Upgrade),
    /// Invalid repository version
    InvalidVersion { expected: String, got: String },
    /// I/O error
    IoError(std::io::Error),
    /// JSON (de)serialization error
    SerializationError(serde_json::Error),
    /// Base decoding error
    BaseDecodeError(data_encoding::DecodeError),
}

} // verus!
