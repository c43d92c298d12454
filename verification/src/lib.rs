//! One-way, incremental synchronisation of a flat-namespace session-file
//! store into a hierarchical project repository.
//!
//! The crate has two components: a path-identifier codec that maps absolute
//! directory paths to flattened, hyphen-delimited identifier tokens and back
//! ([`file_path_converter`]), and a sync engine that walks a source tree
//! through an abstract storage capability, reconstructs target paths with the
//! codec's segment converter, and copies only stale files.

pub mod file_path_converter;
pub mod filesystem;
pub mod mock;
pub mod paths;
pub mod sync;

pub use filesystem::EntryMetadata;
pub use filesystem::FileSystem;
pub use filesystem::FileSystemError;
pub use mock::MockFileSystem;
pub use sync::SessionSyncer;
pub use sync::SyncOptions;
pub use sync::SyncResult;
