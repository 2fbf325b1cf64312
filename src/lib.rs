//! Core of a content-addressed, append-only repository of items and records.
//!
//! The library holds the logic that decides: how record file names are
//! sanitized, in which order and framing record files are hashed, how the
//! records of an item are arranged into generations, and how a repository is
//! validated and upgraded. Reading and writing the filesystem is left to the
//! caller, who hands plain values in and takes plain values back.

pub mod outside;
pub mod error;
pub mod codec;
pub mod pathguard;
pub mod order;
pub mod record;
pub mod dag;
pub mod repo;

pub use error::{RepositoryError, Upgrade};
pub use codec::{Encoding, HashingAlgorithm, IdGenerator};
pub use order::RecordFile;
pub use record::{plan_record, PlannedFile, RecordPlan};
pub use dag::{record_generations, ItemRecordIter, RecordEntry};
pub use repo::{plan_upgrade, Config, UpgradeStep};
