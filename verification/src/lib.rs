//! File-integrity history: snapshots of a directory tree's metadata and
//! content digests, their self-verifying text encoding, the append-only store
//! that names each snapshot by its digest, the two scan passes that fill a
//! snapshot, and the rename-aware difference between two snapshots.
//!
//! The library never touches the filesystem. Its callers list directories and
//! read and write files, and hand it names and bytes.
//!
//! - [`checksum`]: SHA-256 and MD5 digests in hexadecimal.
//! - [`index`] and [`table`]: snapshots, and the ordered table of their files.
//! - [`codec`], [`format`] and [`roundtrip`]: the text of a snapshot, how it
//!   is written and read, and the laws that tie the two.
//! - [`reference`] and [`store`]: the names of snapshot files and the history
//!   of a store.
//! - [`index_scan`]: the metadata pass and the checksum pass.
//! - [`index_diff`]: the changes between two snapshots.
//! - [`paths`], [`text`] and [`decimal`]: paths by components, strings by
//!   characters, integers in decimal.
//! - [`op`]: the operations of the command line.

pub mod checksum;
pub mod codec;
pub mod decimal;
pub mod error;
pub mod format;
pub mod index;
pub mod index_diff;
pub mod index_scan;
pub mod op;
pub mod paths;
pub mod reference;
pub mod roundtrip;
pub mod store;
pub mod table;
pub mod text;

pub use checksum::ChecksumFunction;
pub use error::Error;
pub use index::{IndexFileInfo, IndexSnapshot};
pub use index_diff::{IndexDiff, IndexDiffList};
pub use index_scan::ScanOptions;
pub use op::{Operation, OperationHelp};
pub use reference::IndexReference;
pub use store::IndexDirectory;
