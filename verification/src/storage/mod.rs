//! Block storage: the trait, an in-memory implementation, and the layout of a
//! torrent over several files.

pub mod error;
pub mod fd_pool;
pub mod file;
pub mod memory;
pub mod multi_file;
pub mod opening;
pub mod traits;

pub use error::{StorageError, StorageErrorKind};
pub use memory::MemoryStorage;
pub use traits::{IoVec, IoVecMut, Storage};
