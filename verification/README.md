# simple_fatfs

Building blocks of a FAT filesystem for embedded storage, verified with Verus.

* `src/fat/types.rs` – `BlockIndex` and the index/count aliases.
* `src/codepage_ascii.rs` – an ASCII-only codepage.
* `src/fat/options.rs` – filesystem mount options.
* `src/fat/storage.rs` – the buffer that holds one sector.
* `src/fat/flash.rs` – `NorFlashStorage`, the NOR flash interface, with the
  behaviour of a device stated over its contents.
* `src/fat/block_translator.rs` – `NorFlashTranslator`, which presents a NOR
  flash with large erase blocks as a device of small virtual blocks, caching
  erase blocks in one or more buffers that are replaced least recently used
  first. Its contracts state that reads return the bytes as the last writes
  left them and that `flush` puts exactly those bytes on the device.
* `src/fat/ages.rs` – the order of use of the buffers and its renumbering.
* `app/` – glue to `embedded-storage` and `embedded-io`: an adapter from any
  `embedded_storage` NOR flash, the error type with `Display` and
  `embedded_io::Error`, and a device wrapper that flushes when dropped.
