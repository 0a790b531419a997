//! The NOR flash device interface that the translation layer drives.

use vstd::prelude::*;

verus! {

/// A call to a NOR flash device, with what decides whether it may fail.
pub enum DeviceCall {
    /// Reading this many bytes from this offset.
    Read(u32, usize),
    /// Erasing from the first offset up to the second.
    Erase(u32, u32),
    /// Writing this many bytes from this offset.
    Write(u32, usize),
}

/// A NOR flash device: readable in units of `READ_SIZE` bytes, writable in
/// units of `WRITE_SIZE` bytes and erasable in units of `ERASE_SIZE` bytes.
///
/// Users of the library implement this trait for their flash peripheral, as
/// they implement `embedded_storage::nor_flash::NorFlash`. The contracts
/// below restate what that trait's documentation asks of every
/// implementation: `contents` is the sequence of bytes the device holds,
/// `read` hands out a range of them, `erase` fills a range with `0xff`
/// ("the given range will contain all 1s afterwards") and `write` stores
/// bytes into words that were erased ("it is not allowed to write to the
/// same word twice"). Reading leaves the device as it was. Each call may
/// fail, for misaligned or out of bounds arguments or for a reason of the
/// device. This trait asks one thing more of an implementation than those
/// documents state: a failed erase or write leaves every byte outside the
/// range it was given as it was; inside that range the bytes are unknown.
pub trait NorFlashStorage {
    /// Errors returned by this NOR flash.
    type Error;

    /// The minimum number of bytes the storage peripheral can read.
    const READ_SIZE: usize;

    /// The minimum number of bytes the storage peripheral can write.
    const WRITE_SIZE: usize;

    /// The minimum number of bytes the storage peripheral can erase.
    const ERASE_SIZE: usize;

    /// The bytes that the device holds.
    ///
    /// This is the model in which the contracts are stated, and it is never
    /// run: it stands for the bytes the device holds, whatever body an
    /// implementation outside verified code gives it.
    spec fn contents(&self) -> Seq<u8>;

    /// Whether the device may answer `call` with an error.
    ///
    /// A call fails only where this admits it, and what it admits stays the
    /// same from call to call. An implementation that says nothing of when
    /// it fails keeps the default, under which every call may fail; one that
    /// knows more (say, a device that refuses only calls out of its bounds)
    /// may state it. Like `contents`, this is never run.
    closed spec fn may_fail(&self, call: DeviceCall) -> bool {
        true
    }

    /// The capacity of the peripheral in bytes.
    fn capacity(&self) -> (r: usize)
        ensures
            r == self.contents().len(),
    ;

    /// Read a slice of data from the storage peripheral, starting the read
    /// operation at the given address offset, and reading `bytes.len()` bytes.
    fn read(&mut self, offset: u32, bytes: &mut [u8]) -> (r: Result<(), Self::Error>)
        ensures
            final(self).contents() == old(self).contents(),
            final(bytes)@.len() == old(bytes)@.len(),
            r is Err ==> old(self).may_fail(DeviceCall::Read(offset, old(bytes)@.len() as usize)),
            forall|c: DeviceCall| #[trigger] final(self).may_fail(c) == old(self).may_fail(c),
            r is Ok ==> offset + old(bytes)@.len() <= old(self).contents().len()
                && final(bytes)@ == old(self).contents().subrange(
                offset as int,
                offset + old(bytes)@.len(),
            ),
    ;

    /// Erase the given storage range, clearing all data within `from..to`.
    /// The given range will contain all 1s afterwards; `to` is exclusive.
    fn erase(&mut self, from: u32, to: u32) -> (r: Result<(), Self::Error>)
        ensures
            final(self).contents().len() == old(self).contents().len(),
            r is Err ==> old(self).may_fail(DeviceCall::Erase(from, to)),
            forall|c: DeviceCall| #[trigger] final(self).may_fail(c) == old(self).may_fail(c),
            r is Ok ==> from <= to <= old(self).contents().len() && final(self).contents()
                == erased(old(self).contents(), from as int, to as int),
            r is Err ==> forall|i: int|
                0 <= i < old(self).contents().len() && !(from <= i < to)
                    ==> #[trigger] final(self).contents()[i] == old(self).contents()[i],
    ;

    /// Write `bytes` at `offset`. Every word written must have been erased
    /// since it was last written.
    fn write(&mut self, offset: u32, bytes: &[u8]) -> (r: Result<(), Self::Error>)
        requires
            forall|i: int|
                0 <= i < bytes@.len() && offset + i < old(self).contents().len()
                    ==> #[trigger] old(self).contents()[offset + i] == 0xffu8,
        ensures
            final(self).contents().len() == old(self).contents().len(),
            r is Err ==> old(self).may_fail(DeviceCall::Write(offset, bytes@.len() as usize)),
            forall|c: DeviceCall| #[trigger] final(self).may_fail(c) == old(self).may_fail(c),
            r is Ok ==> offset + bytes@.len() <= old(self).contents().len()
                && final(self).contents() == overwritten(old(self).contents(), offset as int, bytes@),
            r is Err ==> forall|i: int|
                0 <= i < old(self).contents().len() && !(offset <= i < offset + bytes@.len())
                    ==> #[trigger] final(self).contents()[i] == old(self).contents()[i],
    ;
}

/// `contents` with the bytes of `from..to` set to `0xff`.
pub open spec fn erased(contents: Seq<u8>, from: int, to: int) -> Seq<u8> {
    Seq::new(contents.len(), |i: int| if from <= i < to { 0xffu8 } else { contents[i] })
}

/// `contents` with `data` stored from `offset` on.
pub open spec fn overwritten(contents: Seq<u8>, offset: int, data: Seq<u8>) -> Seq<u8> {
    Seq::new(
        contents.len(),
        |i: int|
            if offset <= i < offset + data.len() {
                data[i - offset]
            } else {
                contents[i]
            },
    )
}

} // verus!
