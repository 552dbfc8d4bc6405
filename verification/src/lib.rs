//! Snapshot and restore of a registry-like hierarchical key-value store.
//!
//! The library captures a subtree of the store into an in-memory model
//! (`Hives`), which an application can persist to a structured text file,
//! and replays a model back into the store.  Every value keeps its native
//! type through the round trip.  Both walks are best-effort: a failure on
//! one branch is recorded and the remaining branches are still attempted.

pub mod capture;
pub mod hive;
pub mod paths;
pub mod restore;
pub mod snapshot;
pub mod strings;
pub mod value;

pub use capture::RegKeyData;
pub use capture::RegNode;
pub use hive::HiveId;
pub use restore::RegStore;
pub use restore::StoreKey;
pub use snapshot::Entries;
pub use snapshot::Error;
pub use snapshot::Hives;
pub use snapshot::Keys;
pub use snapshot::RegistryInfo;

pub use value::Entry;
pub use value::NativeValue;
pub use value::RawValue;
