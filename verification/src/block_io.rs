//! Block-level access to storage devices: block indices, the NOR flash
//! interface and the translation between block sizes.

pub use crate::fat::block_translator::{NorFlashError, NorFlashTranslator};
pub use crate::fat::flash::{DeviceCall, NorFlashStorage};
pub use crate::fat::types::{BlockCount, BlockIndex, BlockSize};

/// The sequence type in which the flash interface states the contents of a
/// device. `NorFlashStorage::contents` is never run: it stands for the bytes
/// of the device, whatever body an implementation outside verified code
/// gives it.
pub use vstd::seq::Seq;
