//! A FAT filesystem toolkit for embedded storage: block index types, an ASCII
//! codepage, mount options, sector buffers and a translation layer that maps
//! small virtual blocks onto NOR flash erase blocks.

pub mod block_io;
pub mod codepage_ascii;
pub mod fat;

pub use codepage_ascii::Codepage;
