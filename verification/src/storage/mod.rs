//! Per-namespace merkle logs, an in-memory index and snapshots.

pub mod compaction;
pub mod convergence;
pub mod crc;
pub mod disk;
pub mod entry;
pub mod error;
pub mod log;
pub mod model;
pub mod naming;
pub mod record;
pub mod rows;
pub mod snapshot;
pub mod space;
pub mod store;

pub use disk::{Disk, NsFiles};
pub use entry::{ConflictPolicy, Entry, Version};
pub use error::StorageError;
pub use naming::ns_dir;
pub use store::compact::compact_dir;
pub use store::{Key, Namespace, Store};
