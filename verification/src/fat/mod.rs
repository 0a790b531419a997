//! The FAT side of the library: index types, options, sector buffers and
//! block translation.

pub mod ages;
pub mod block_translator;
pub mod flash;
pub mod options;
pub mod storage;
pub mod types;
