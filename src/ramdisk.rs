//! A read-only block device over a disk image held in memory.
use vstd::prelude::*;

use crate::sd::{BlockIo, BlockIoError, Lba, ReadOutcome, WriteRecord};

verus! {

/// A disk image in memory, addressed in blocks of `BS` bytes, which keeps a
/// log of the reads it was asked for.
pub struct RamDisk<const BS: usize> {
    bytes: Vec<u8>,
    log: Vec<(Lba, usize)>,
    ended: Ghost<Seq<ReadOutcome>>,
    written: Ghost<Seq<WriteRecord>>,
}

pub open spec fn log_view(log: Seq<(Lba, usize)>) -> Seq<(int, int)> {
    log.map_values(|e: (Lba, usize)| (e.0 as int, e.1 as int))
}

impl<const BS: usize> RamDisk<BS> {
    /// Copies the blocks from `start_lba` on into `buffer`, or gives
    /// `OutOfRange`, leaving `buffer`, if they run past the image's end.
    fn fetch(&self, start_lba: Lba, buffer: &mut [u8]) -> (r: Result<(), BlockIoError>)
        requires
            BS > 0,
        ensures
            final(buffer)@.len() == old(buffer)@.len(),
            r is Ok <==> start_lba * BS + old(buffer)@.len() <= self.bytes@.len(),
            r is Err ==> r == Err::<(), BlockIoError>(BlockIoError::OutOfRange) && final(buffer)@
                == old(buffer)@,
            r is Ok ==> final(buffer)@ == self.bytes@.subrange(
                start_lba * BS,
                start_lba * BS + old(buffer)@.len(),
            ),
    {
        let len: usize = buffer.len();
        let size: usize = self.bytes.len();
        if start_lba as usize > size / BS {
            proof {
                assert(start_lba * BS > size) by (nonlinear_arith)
                    requires start_lba > size as int / (BS as int), BS > 0;
            }
            return Err(BlockIoError::OutOfRange);
        }
        proof {
            assert(start_lba * BS <= size) by (nonlinear_arith)
                requires start_lba <= size as int / (BS as int), BS > 0;
        }
        let at: usize = start_lba as usize * BS;
        if len > size - at {
            return Err(BlockIoError::OutOfRange);
        }
        let mut i: usize = 0;
        while i < len
            invariant
                at + len <= size,
                size == self.bytes@.len(),
                len == buffer@.len(),
                i <= len,
                forall|k: int| 0 <= k < i ==> buffer@[k] == self.bytes@[at + k],
            decreases len - i,
        {
            buffer[i] = self.bytes[at + i];
            i = i + 1;
        }
        proof {
            assert(buffer@ =~= self.bytes@.subrange(at as int, at + len));
        }
        Ok(())
    }

    pub fn new(bytes: Vec<u8>) -> (r: Self)
        ensures
            r.known(),
            r.contents() == bytes@,
            r.reads() == Seq::<(int, int)>::empty(),
            r.outcomes() == Seq::<ReadOutcome>::empty(),
            r.writes() == Seq::<WriteRecord>::empty(),
    {
        RamDisk { bytes, log: Vec::new(), ended: Ghost(Seq::empty()), written: Ghost(Seq::empty()) }
    }

    /// The reads asked for so far, oldest first: first block and number of
    /// blocks.
    pub fn read_log(&self) -> (r: &Vec<(Lba, usize)>)
        ensures
            log_view(r@) == self.reads(),
    {
        &self.log
    }
}

impl<const BS: usize> BlockIo<BS> for RamDisk<BS> {
    closed spec fn reads(&self) -> Seq<(int, int)> {
        log_view(self.log@)
    }

    closed spec fn known(&self) -> bool {
        true
    }

    closed spec fn contents(&self) -> Seq<u8> {
        self.bytes@
    }

    closed spec fn outcomes(&self) -> Seq<ReadOutcome> {
        self.ended@
    }

    closed spec fn writes(&self) -> Seq<WriteRecord> {
        self.written@
    }

    /// Copies the blocks out of the image; a request that runs past the
    /// image's end gives `OutOfRange`.
    fn read_blocks(&mut self, start_lba: Lba, buffer: &mut [u8]) -> (r: Result<(), BlockIoError>)
        ensures
            r is Ok <==> start_lba * BS + old(buffer)@.len() <= old(self).contents().len(),
            r is Err ==> r == Err::<(), BlockIoError>(BlockIoError::OutOfRange),
    {
        let len: usize = buffer.len();
        self.log.push((start_lba, len / BS));
        proof {
            assert(log_view(self.log@) =~= log_view(old(self).log@).push(
                (start_lba as int, len as int / (BS as int)),
            ));
        }
        let r = self.fetch(start_lba, buffer);
        self.ended = Ghost(self.ended@.push((r, buffer@)));
        r
    }

    /// The image is read-only.
    fn write_blocks(&mut self, start_lba: Lba, buffer: &[u8]) -> (r: Result<(), BlockIoError>)
        ensures
            r == Err::<(), BlockIoError>(BlockIoError::Unsupported),
            final(self).contents() == old(self).contents(),
    {
        let r = Err(BlockIoError::Unsupported);
        self.written = Ghost(self.written@.push((start_lba as int, buffer@, r)));
        r
    }
}

} // verus!
