//! Catalog of immutable data segments: key shapes, the delta-log record
//! format, the in-memory index and the bookkeeping around segment retirement.

pub mod cache;
pub mod codec;
pub mod compress;
pub mod decode;
pub mod error;
pub mod index;
pub mod key;
pub mod laws;
pub mod meta;
pub mod parse;
pub mod partition;
pub mod reader;
pub mod retire;
pub mod service;
pub mod text;
pub mod writer;

pub use cache::{FileListCache, Lookup};
pub use error::FileListError;
pub use meta::{FileKey, FileMeta, StreamType};
pub use service::{
    calculate_files_size, calculate_local_files_size, get_file_list, get_file_meta, sum_sizes,
};
