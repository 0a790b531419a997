use simple_fatfs::block_io::{BlockIndex, NorFlashError, NorFlashStorage, NorFlashTranslator};

/// A flash in memory that counts the calls it gets and can be told to fail.
#[derive(Debug)]
struct RamFlash<const W: usize, const E: usize> {
    data: Vec<u8>,
    reads: usize,
    erases: usize,
    writes: usize,
    fail_reads: bool,
    fail_erases: bool,
    /// The number of reads still to fail before reads succeed again.
    failing_reads: usize,
}

#[derive(Debug, PartialEq)]
enum RamError {
    Read(u32),
    Erase(u32),
    OutOfBounds,
}

impl<const W: usize, const E: usize> RamFlash<W, E> {
    fn new(data: Vec<u8>) -> Self {
        Self {
            data,
            reads: 0,
            erases: 0,
            writes: 0,
            fail_reads: false,
            fail_erases: false,
            failing_reads: 0,
        }
    }
}

impl<const W: usize, const E: usize> NorFlashStorage for &mut RamFlash<W, E> {
    type Error = RamError;

    const READ_SIZE: usize = 1;
    const WRITE_SIZE: usize = W;
    const ERASE_SIZE: usize = E;

    // The bytes of the device exist only in the verified model, where this
    // stands for them; nothing calls it at run time.
    fn contents(&self) -> simple_fatfs::block_io::Seq<u8> {
        simple_fatfs::block_io::Seq::empty()
    }

    fn capacity(&self) -> usize {
        self.data.len()
    }

    fn read(&mut self, offset: u32, bytes: &mut [u8]) -> Result<(), RamError> {
        self.reads += 1;
        if self.fail_reads {
            return Err(RamError::Read(offset));
        }
        if self.failing_reads > 0 {
            self.failing_reads -= 1;
            return Err(RamError::Read(offset));
        }
        let offset = offset as usize;
        if offset + bytes.len() > self.data.len() {
            return Err(RamError::OutOfBounds);
        }
        bytes.copy_from_slice(&self.data[offset..offset + bytes.len()]);
        Ok(())
    }

    fn erase(&mut self, from: u32, to: u32) -> Result<(), RamError> {
        self.erases += 1;
        if self.fail_erases {
            return Err(RamError::Erase(from));
        }
        assert!(from as usize % E == 0 && to as usize % E == 0);
        for b in &mut self.data[from as usize..to as usize] {
            *b = 0xff;
        }
        Ok(())
    }

    fn write(&mut self, offset: u32, bytes: &[u8]) -> Result<(), RamError> {
        self.writes += 1;
        let offset = offset as usize;
        assert!(offset % W == 0 && bytes.len() % W == 0);
        for (f, b) in self.data[offset..offset + bytes.len()].iter_mut().zip(bytes) {
            assert_eq!(*f, 0xff, "write into a word that was not erased");
            *f = *b;
        }
        Ok(())
    }
}

fn pattern(len: usize) -> Vec<u8> {
    (0..len).map(|i| (i * 7 + 3) as u8).collect()
}

#[test]
fn new_translator_shows_the_device() {
    let mut flash = RamFlash::<4, 4>::new(pattern(32));
    let mut t = NorFlashTranslator::<1, 4, 2, _>::new(&mut flash);
    let mut buf = [0u8; 32];
    t.read(BlockIndex(0), &mut buf).unwrap();
    assert_eq!(buf.to_vec(), pattern(32));
}

#[test]
fn read_after_write_gives_the_written_bytes() {
    let mut flash = RamFlash::<4, 8>::new(pattern(64));
    let mut t = NorFlashTranslator::<2, 8, 3, _>::new(&mut flash);
    t.write(BlockIndex(5), &[1, 2, 3, 4, 5, 6]).unwrap();
    let mut buf = [0u8; 6];
    t.read(BlockIndex(5), &mut buf).unwrap();
    assert_eq!(buf, [1, 2, 3, 4, 5, 6]);
    // the bytes around the write keep their values
    let mut around = [0u8; 2];
    t.read(BlockIndex(4), &mut around).unwrap();
    assert_eq!(around.to_vec(), pattern(64)[8..10].to_vec());
    t.read(BlockIndex(8), &mut around).unwrap();
    assert_eq!(around.to_vec(), pattern(64)[16..18].to_vec());
}

#[test]
fn last_write_wins() {
    let mut flash = RamFlash::<4, 4>::new(pattern(16));
    let mut t = NorFlashTranslator::<4, 4, 1, _>::new(&mut flash);
    t.write(BlockIndex(1), &[9, 9, 9, 9]).unwrap();
    t.write(BlockIndex(2), &[1, 1, 1, 1]).unwrap();
    t.write(BlockIndex(1), &[5, 6, 7, 8]).unwrap();
    let mut buf = [0u8; 4];
    t.read(BlockIndex(1), &mut buf).unwrap();
    assert_eq!(buf, [5, 6, 7, 8]);
    t.flush().unwrap();
    drop(t);
    assert_eq!(flash.data[4..8], [5, 6, 7, 8]);
    assert_eq!(flash.data[8..12], [1, 1, 1, 1]);
}

#[test]
fn flush_puts_every_change_on_the_device() {
    let mut flash = RamFlash::<4, 8>::new(pattern(64));
    let mut expected = pattern(64);
    {
        let mut t = NorFlashTranslator::<4, 8, 3, _>::new(&mut flash);
        for (block, value) in [(0u32, 10u8), (3, 20), (9, 30), (15, 40), (2, 50)] {
            let bytes = [value, value + 1, value + 2, value + 3];
            t.write(BlockIndex(block), &bytes).unwrap();
            expected[block as usize * 4..block as usize * 4 + 4].copy_from_slice(&bytes);
        }
        t.flush().unwrap();
    }
    assert_eq!(flash.data, expected);
}

#[test]
fn flush_without_changes_does_not_touch_the_device() {
    let mut flash = RamFlash::<4, 4>::new(pattern(16));
    {
        let mut t = NorFlashTranslator::<4, 4, 2, _>::new(&mut flash);
        let mut buf = [0u8; 8];
        t.read(BlockIndex(0), &mut buf).unwrap();
        t.flush().unwrap();
    }
    assert_eq!(flash.erases, 0);
    assert_eq!(flash.writes, 0);
    assert_eq!(flash.reads, 2);
}

#[test]
fn cached_blocks_are_served_without_the_device() {
    let mut flash = RamFlash::<4, 8>::new(pattern(32));
    {
        let mut t = NorFlashTranslator::<2, 8, 2, _>::new(&mut flash);
        let mut buf = [0u8; 8];
        t.read(BlockIndex(0), &mut buf).unwrap();
        // the whole hardware block is cached now
        t.write(BlockIndex(1), &[1, 2]).unwrap();
        t.read(BlockIndex(3), &mut buf[..2]).unwrap();
        t.read(BlockIndex(1), &mut buf[..2]).unwrap();
        assert_eq!(buf[..2], [1, 2]);
    }
    assert_eq!(flash.reads, 1);
    assert_eq!(flash.erases, 0);
    assert_eq!(flash.writes, 0);
}

#[test]
fn two_buffers_replace_the_older_one() {
    let mut flash = RamFlash::<4, 4>::new(vec![0xffu8; 16]);
    {
        let mut t = NorFlashTranslator::<4, 4, 2, _>::new(&mut flash);
        t.write(BlockIndex(0), &[1, 1, 1, 1]).unwrap();
        t.write(BlockIndex(1), &[2, 2, 2, 2]).unwrap();
        // block 0 is used again, so block 1 is the older one
        let mut buf = [0u8; 4];
        t.read(BlockIndex(0), &mut buf).unwrap();
        t.read(BlockIndex(2), &mut buf).unwrap();
    }
    // only block 1 was written back
    assert_eq!(flash.data[0..4], [0xff; 4]);
    assert_eq!(flash.data[4..8], [2, 2, 2, 2]);
}

#[test]
fn three_buffers_replace_the_least_recently_used() {
    let mut flash = RamFlash::<4, 4>::new(vec![0xffu8; 32]);
    {
        let mut t = NorFlashTranslator::<4, 4, 3, _>::new(&mut flash);
        t.write(BlockIndex(0), &[1; 4]).unwrap();
        t.write(BlockIndex(1), &[2; 4]).unwrap();
        t.write(BlockIndex(2), &[3; 4]).unwrap();
        let mut buf = [0u8; 4];
        t.read(BlockIndex(0), &mut buf).unwrap();
        t.read(BlockIndex(2), &mut buf).unwrap();
        // block 1 was used longest ago
        t.read(BlockIndex(3), &mut buf).unwrap();
        assert_eq!(buf, [0xff; 4]);
    }
    assert_eq!(flash.data[0..4], [0xff; 4]);
    assert_eq!(flash.data[4..8], [2; 4]);
    assert_eq!(flash.data[8..12], [0xff; 4]);
}

#[test]
fn block_count_is_the_number_of_whole_blocks() {
    let mut flash = RamFlash::<4, 8>::new(vec![0u8; 64]);
    let t = NorFlashTranslator::<4, 8, 1, _>::new(&mut flash);
    assert_eq!(t.block_size(), 4);
    assert_eq!(t.block_count(), BlockIndex(16));
    let mut flash = RamFlash::<1, 8>::new(vec![0u8; 66]);
    let t = NorFlashTranslator::<8, 8, 1, _>::new(&mut flash);
    assert_eq!(t.block_count(), BlockIndex(8));
}

#[test]
fn device_read_errors_are_passed_on() {
    let mut flash = RamFlash::<4, 4>::new(pattern(16));
    flash.fail_reads = true;
    let mut t = NorFlashTranslator::<4, 4, 1, _>::new(&mut flash);
    let mut buf = [0u8; 4];
    let err = t.read(BlockIndex(2), &mut buf).unwrap_err();
    assert_eq!(err.0, RamError::Read(8));
    assert_eq!(*err, RamError::Read(8));
}

#[test]
fn device_erase_errors_are_passed_on() {
    let mut flash = RamFlash::<4, 4>::new(pattern(16));
    flash.fail_erases = true;
    let mut t = NorFlashTranslator::<4, 4, 1, _>::new(&mut flash);
    t.write(BlockIndex(1), &[0; 4]).unwrap();
    assert_eq!(t.flush().unwrap_err().0, RamError::Erase(4));
    let mut buf = [0u8; 4];
    // the changed buffer is still there
    t.read(BlockIndex(1), &mut buf).unwrap();
    assert_eq!(buf, [0; 4]);
}

#[test]
fn reading_past_the_device_fails() {
    let mut flash = RamFlash::<4, 4>::new(pattern(16));
    let mut t = NorFlashTranslator::<4, 4, 1, _>::new(&mut flash);
    let mut buf = [0u8; 4];
    assert_eq!(t.read(BlockIndex(4), &mut buf).unwrap_err().0, RamError::OutOfBounds);
}

#[test]
fn lent_buffers_hold_the_cached_block() {
    let mut flash = RamFlash::<4, 4>::new(pattern(16));
    let mut lent = [0u8; 4];
    {
        let mut t = NorFlashTranslator::<2, 4, 1, _>::new_with_buffer(&mut flash, [&mut lent]);
        t.write(BlockIndex(3), &[0xaa, 0xbb]).unwrap();
    }
    let mut expected = pattern(16)[4..8].to_vec();
    expected[2] = 0xaa;
    expected[3] = 0xbb;
    assert_eq!(lent.to_vec(), expected);
}

#[test]
fn empty_transfers_succeed() {
    let mut flash = RamFlash::<4, 4>::new(pattern(16));
    {
        let mut t = NorFlashTranslator::<4, 4, 1, _>::new(&mut flash);
        t.read(BlockIndex(100), &mut []).unwrap();
        t.write(BlockIndex(100), &[]).unwrap();
    }
    assert_eq!(flash.reads, 0);
}

#[test]
fn error_wrapper_converts_from_the_device_error() {
    let err: NorFlashError<RamError> = NorFlashError::from(RamError::OutOfBounds);
    assert_eq!(err.0, RamError::OutOfBounds);
}

#[test]
fn buffers_larger_than_the_erase_size_touch_one_hardware_block() {
    let mut flash = RamFlash::<4, 4>::new(pattern(16));
    let mut expected = pattern(16);
    {
        let mut t = NorFlashTranslator::<4, 8, 1, _>::new(&mut flash);
        let mut buf = [0u8; 4];
        // the last hardware block of the device
        t.read(BlockIndex(3), &mut buf).unwrap();
        assert_eq!(buf.to_vec(), pattern(16)[12..16].to_vec());
        t.write(BlockIndex(3), &[1, 2, 3, 4]).unwrap();
        t.write(BlockIndex(2), &[5, 6, 7, 8]).unwrap();
        t.flush().unwrap();
    }
    expected[12..16].copy_from_slice(&[1, 2, 3, 4]);
    expected[8..12].copy_from_slice(&[5, 6, 7, 8]);
    assert_eq!(flash.data, expected);
    assert_eq!(flash.reads, 2);
    assert_eq!(flash.erases, 2);
    assert_eq!(flash.writes, 2);
}

#[test]
fn a_failed_read_leaves_no_block_cached() {
    let mut flash = RamFlash::<4, 4>::new(pattern(16));
    flash.failing_reads = 1;
    let mut t = NorFlashTranslator::<4, 4, 1, _>::new(&mut flash);
    let mut buf = [0u8; 4];
    assert_eq!(t.read(BlockIndex(2), &mut buf).unwrap_err().0, RamError::Read(8));
    // the block is read from the device again, not served from the buffer
    t.read(BlockIndex(2), &mut buf).unwrap();
    assert_eq!(buf.to_vec(), pattern(16)[8..12].to_vec());
    t.flush().unwrap();
    drop(t);
    assert_eq!(flash.reads, 2);
    assert_eq!(flash.erases, 0);
    assert_eq!(flash.data, pattern(16));
}

#[test]
fn a_failed_write_back_keeps_the_changes() {
    let mut flash = RamFlash::<4, 4>::new(pattern(16));
    flash.fail_erases = true;
    let mut t = NorFlashTranslator::<4, 4, 1, _>::new(&mut flash);
    t.write(BlockIndex(1), &[7, 7, 7, 7]).unwrap();
    // loading block 3 needs the changed block 1 written back first, which fails
    let mut buf = [0u8; 4];
    assert_eq!(t.read(BlockIndex(3), &mut buf).unwrap_err().0, RamError::Erase(4));
    t.read(BlockIndex(1), &mut buf).unwrap();
    assert_eq!(buf, [7, 7, 7, 7]);
    drop(t);
    assert_eq!(flash.data, pattern(16));
}

#[test]
fn a_block_only_buffered_keeps_its_device_bytes() {
    let mut flash = RamFlash::<1, 4>::new(pattern(16));
    {
        let mut t = NorFlashTranslator::<1, 4, 1, _>::new(&mut flash);
        t.write(BlockIndex(5), &[0xaa, 0xbb, 0xcc, 0xdd]).unwrap();
        let mut last = [0u8; 1];
        t.read(BlockIndex(8), &mut last).unwrap();
        assert_eq!(last, [0xdd]);
    }
    let p = pattern(16);
    assert_eq!(flash.data[4..8], [p[4], 0xaa, 0xbb, 0xcc]);
    // the block of the last byte was only loaded and changed in memory
    assert_eq!(flash.data[8..12], p[8..12]);
    assert_eq!(flash.erases, 1);
    assert_eq!(flash.writes, 1);
}

#[test]
fn eviction_follows_the_order_of_use_over_many_calls() {
    let mut flash = RamFlash::<4, 4>::new(pattern(16));
    let mut t = NorFlashTranslator::<4, 4, 3, _>::new(&mut flash);
    let mut buf = [0u8; 4];
    for block in [0u32, 1, 2, 0, 3] {
        t.read(BlockIndex(block), &mut buf).unwrap();
    }
    // block 1 was used longest ago and was replaced by block 3
    t.read(BlockIndex(1), &mut buf).unwrap();
    assert_eq!(buf.to_vec(), pattern(16)[4..8].to_vec());
    // block 0 is still held; block 2 made room for block 1
    t.read(BlockIndex(0), &mut buf).unwrap();
    drop(t);
    assert_eq!(flash.reads, 5);
}
