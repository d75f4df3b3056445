//! Block devices: the trait, the SD card behind the cartridge, and partition
//! views of a device.
use vstd::prelude::*;

use crate::ezflash::{
    config_ops, poll_run, request_ops, sd_control_ops, BusOp, Cartridge,
    RegisterBus, SdControl, GAME_MODE, OS_MODE, ROMPAGE, SD_BUF,
};

verus! {

/// Logical block address: the index of a block on a device.
pub type Lba = u32;

/// Errors of a block device.
#[derive(Clone, Copy, Debug, PartialEq, Eq, Structural)]
pub enum BlockIoError {
    /// The card did not answer one request within the polling bound.
    HardwareTimeout,
    /// The card did not answer one chunk within the retry budget.
    ReadFailure,
    /// The device cannot perform the operation.
    Unsupported,
    /// The request lies outside the device's blocks.
    OutOfRange,
}

/// How a read ended: its result and the buffer's bytes afterwards.
pub type ReadOutcome = (Result<(), BlockIoError>, Seq<u8>);

/// A write a device was asked for: first block, bytes, and result.
pub type WriteRecord = (int, Seq<u8>, Result<(), BlockIoError>);

/// The parts put end to end, in order.
pub open spec fn joined(parts: Seq<Seq<u8>>) -> Seq<u8>
    decreases parts.len(),
{
    if parts.len() == 0 {
        Seq::empty()
    } else {
        joined(parts.drop_last()) + parts.last()
    }
}

/// A device addressed in blocks of `BS` bytes.
pub trait BlockIo<const BS: usize> {
    /// The reads this device was asked for, oldest first: first block and
    /// number of blocks.
    spec fn reads(&self) -> Seq<(int, int)>;

    /// How each of those reads ended, oldest first.
    spec fn outcomes(&self) -> Seq<ReadOutcome>;

    /// The writes this device was asked for, oldest first.
    spec fn writes(&self) -> Seq<WriteRecord>;

    /// Whether `contents` states what successful reads return.
    spec fn known(&self) -> bool;

    /// The device's bytes; block `b` starts at byte `b * BS`.
    spec fn contents(&self) -> Seq<u8>;

    /// Fills `buffer` with the blocks from `start_lba` on.
    fn read_blocks(&mut self, start_lba: Lba, buffer: &mut [u8]) -> (r: Result<(), BlockIoError>)
        requires
            BS > 0,
            old(buffer)@.len() % (BS as nat) == 0,
        ensures
            final(buffer)@.len() == old(buffer)@.len(),
            final(self).reads() == old(self).reads().push(
                (start_lba as int, old(buffer)@.len() as int / (BS as int)),
            ),
            final(self).outcomes() == old(self).outcomes().push((r, final(buffer)@)),
            final(self).writes() == old(self).writes(),
            final(self).known() == old(self).known(),
            final(self).contents() == old(self).contents(),
            old(self).known() && r is Ok ==> {
                &&& start_lba * BS + old(buffer)@.len() <= old(self).contents().len()
                &&& final(buffer)@ == old(self).contents().subrange(
                    start_lba * BS,
                    start_lba * BS + old(buffer)@.len(),
                )
            },
    ;

    /// Writes `buffer` to the blocks from `start_lba` on; a write that fails
    /// leaves the device as it was.
    fn write_blocks(&mut self, start_lba: Lba, buffer: &[u8]) -> (r: Result<(), BlockIoError>)
        requires
            BS > 0,
            buffer@.len() % (BS as nat) == 0,
        ensures
            final(self).reads() == old(self).reads(),
            final(self).outcomes() == old(self).outcomes(),
            final(self).writes() == old(self).writes().push((start_lba as int, buffer@, r)),
            r is Err ==> final(self).known() == old(self).known(),
            r is Err ==> final(self).contents() == old(self).contents(),
    ;
}

/// Bytes in a block of the SD card.
pub const BLOCK_SIZE: usize = 512;

/// Most blocks that one SD transaction carries.
pub const CHUNK_BLOCKS: usize = 4;

/// Attempts made at one chunk before the read fails.
pub const RETRY_LIMIT: u32 = 2;

/// Busy-loop iterations between two attempts at a chunk.
pub const RETRY_DELAY: u32 = 5000;

/// What happened to one chunk of an SD read: the poll runs of the attempts
/// that timed out, and the poll run of the attempt that was answered, if one
/// was.
pub type ChunkRecord = (Seq<Seq<BusOp>>, Option<Seq<BusOp>>);

/// Number of chunks of a read of `count` blocks.
pub open spec fn chunk_count(count: int) -> int {
    (count + CHUNK_BLOCKS - 1) / (CHUNK_BLOCKS as int)
}

/// Number of blocks in chunk `c` of a read of `count` blocks.
pub open spec fn chunk_blocks(count: int, c: int) -> int {
    if count - c * CHUNK_BLOCKS < CHUNK_BLOCKS {
        count - c * CHUNK_BLOCKS
    } else {
        CHUNK_BLOCKS as int
    }
}

/// One attempt at a chunk: enable the interface, address the blocks, ask
/// for the card's state, then poll the response register.
pub open spec fn attempt_ops(lba: u32, blocks: u16, polls: Seq<BusOp>) -> Seq<BusOp> {
    sd_control_ops(SdControl::Enable) + request_ops(lba, blocks) + sd_control_ops(
        SdControl::ReadState,
    ) + polls
}

/// The attempts at a chunk that timed out, each followed by a delay.
pub open spec fn timeout_ops(lba: u32, blocks: u16, tries: Seq<Seq<BusOp>>) -> Seq<BusOp>
    decreases tries.len(),
{
    if tries.len() == 0 {
        Seq::empty()
    } else {
        timeout_ops(lba, blocks, tries.drop_last()) + attempt_ops(lba, blocks, tries.last()).push(
            BusOp::Delay(RETRY_DELAY),
        )
    }
}

/// The bus operations of one chunk, as `rec` records it: the attempts that
/// timed out, then, if the card answered, the answered attempt and the copy
/// of the chunk's bytes to `offset`.
pub open spec fn chunk_ops(lba: u32, blocks: u16, offset: usize, rec: ChunkRecord) -> Seq<BusOp> {
    timeout_ops(lba, blocks, rec.0) + match rec.1 {
        Some(polls) => attempt_ops(lba, blocks, polls) + sd_control_ops(SdControl::Enable).push(
            BusOp::Copy(SD_BUF, offset, (blocks * BLOCK_SIZE) as usize),
        ),
        None => Seq::empty(),
    }
}

/// Whether `rec` is what one chunk can give: every attempt but an answered
/// one timed out; an answer came within `RETRY_LIMIT` attempts, or all of
/// them timed out.
pub open spec fn chunk_valid(rec: ChunkRecord) -> bool {
    &&& forall|t: int| 0 <= t < rec.0.len() ==> poll_run(#[trigger] rec.0[t], false)
    &&& match rec.1 {
        Some(polls) => rec.0.len() < RETRY_LIMIT && poll_run(polls, true),
        None => rec.0.len() == RETRY_LIMIT,
    }
}

/// The bus operations of the chunks that `run` records, for a read of
/// `count` blocks from `start`.
pub open spec fn chunks_ops(start: u32, count: int, run: Seq<ChunkRecord>) -> Seq<BusOp>
    decreases run.len(),
{
    if run.len() == 0 {
        Seq::empty()
    } else {
        let c = run.len() - 1;
        chunks_ops(start, count, run.drop_last()) + chunk_ops(
            (start + c * CHUNK_BLOCKS) as u32,
            chunk_blocks(count, c) as u16,
            (c * CHUNK_BLOCKS * BLOCK_SIZE) as usize,
            run.last(),
        )
    }
}

/// Whether `run` is what a read of `count` blocks can give: chunks are read
/// in order, each valid, and the read stops at the first chunk that was not
/// answered (`ok` false) or after the last chunk (`ok` true).
pub open spec fn run_valid(count: int, run: Seq<ChunkRecord>, ok: bool) -> bool {
    &&& run.len() <= chunk_count(count)
    &&& forall|c: int| 0 <= c < run.len() ==> chunk_valid(#[trigger] run[c])
    &&& forall|c: int| 0 <= c < run.len() - 1 ==> (#[trigger] run[c]).1 is Some
    &&& ok ==> run.len() == chunk_count(count) && (run.len() > 0 ==> run.last().1 is Some)
    &&& !ok ==> run.len() >= 1 && run.last().1 is None
}

/// The bus operations of a whole read: switch to OS mode and enable the
/// interface, read the chunks, then disable the interface and go back to
/// game mode, whether the chunks were read or not.
pub open spec fn session_ops(start: u32, count: int, run: Seq<ChunkRecord>) -> Seq<BusOp> {
    config_ops(ROMPAGE, OS_MODE) + sd_control_ops(SdControl::Enable) + chunks_ops(
        start,
        count,
        run,
    ) + sd_control_ops(SdControl::Disable) + config_ops(ROMPAGE, GAME_MODE)
}

/// Whether a read of `count` blocks from `start` lies within the 32-bit
/// block addresses.
pub open spec fn addressable(start: u32, count: int) -> bool {
    start + count <= u32::MAX + 1
}

/// The SD card behind the cartridge.
pub struct SdCard<B: RegisterBus> {
    cart: Cartridge<B>,
    requested: Ghost<Seq<(int, int)>>,
    ended: Ghost<Seq<ReadOutcome>>,
    written: Ghost<Seq<WriteRecord>>,
}

impl<B: RegisterBus> SdCard<B> {
    /// The bus accesses made so far.
    pub closed spec fn trace(&self) -> Seq<BusOp> {
        self.cart.trace()
    }

    /// The bytes that each bulk copy from the card delivered, oldest first.
    pub closed spec fn copied(&self) -> Seq<Seq<u8>> {
        self.cart.copied()
    }

    pub fn new(bus: B) -> (r: Self)
        ensures
            r.trace() == Seq::<BusOp>::empty(),
            r.copied() == Seq::<Seq<u8>>::empty(),
            r.reads() == Seq::<(int, int)>::empty(),
            r.outcomes() == Seq::<ReadOutcome>::empty(),
            r.writes() == Seq::<WriteRecord>::empty(),
    {
        SdCard {
            cart: Cartridge::new(bus),
            requested: Ghost(Seq::empty()),
            ended: Ghost(Seq::empty()),
            written: Ghost(Seq::empty()),
        }
    }

    /// The bus that the card is reached through.
    pub fn bus(&self) -> &B {
        self.cart.bus()
    }

    /// A view of the blocks `start..end` of the card.
    pub fn partition(&mut self, start: Lba, end: Lba) -> (r: Partition<'_, 512, Self>)
        ensures
            r.disk() == *old(self),
            r.start() == start,
            r.end() == end,
            r.reads() == Seq::<(int, int)>::empty(),
    {
        Partition::new(self, start, end)
    }

    /// Reads one chunk of `blocks` blocks from `lba` into
    /// `buffer[offset..]`, retrying a request that times out.
    fn read_chunk(&mut self, lba: u32, blocks: u16, buffer: &mut [u8], offset: usize) -> (r: (
        Result<(), BlockIoError>,
        Ghost<ChunkRecord>,
    ))
        requires
            1 <= blocks <= CHUNK_BLOCKS,
            offset + blocks * BLOCK_SIZE <= old(buffer)@.len(),
        ensures
            final(buffer)@.len() == old(buffer)@.len(),
            final(self).requested == old(self).requested,
            final(self).ended == old(self).ended,
            final(self).written == old(self).written,
            r.0 is Ok ==> final(self).copied() == old(self).copied().push(
                final(buffer)@.subrange(offset as int, offset + blocks * BLOCK_SIZE),
            ),
            r.0 is Err ==> final(self).copied() == old(self).copied() && final(buffer)@ == old(
                buffer,
            )@,
            forall|i: int|
                0 <= i < old(buffer)@.len() && !(offset <= i < offset + blocks * BLOCK_SIZE)
                    ==> final(buffer)@[i] == #[trigger] old(buffer)@[i],
            chunk_valid(r.1@),
            r.0 is Ok <==> r.1@.1 is Some,
            r.0 is Err ==> r.0 == Err::<(), BlockIoError>(BlockIoError::ReadFailure),
            final(self).trace() == old(self).trace() + chunk_ops(lba, blocks, offset, r.1@),
    {
        let ghost start = self.cart.trace();
        let ghost mut tries: Seq<Seq<BusOp>> = Seq::empty();
        let mut attempt: u32 = 0;
        while attempt < RETRY_LIMIT
            invariant
                1 <= blocks <= CHUNK_BLOCKS,
                offset + blocks * BLOCK_SIZE <= buffer@.len(),
                buffer@ == old(buffer)@,
                self.requested == old(self).requested,
                self.ended == old(self).ended,
                self.written == old(self).written,
                self.cart.copied() == old(self).copied(),
                start == old(self).trace(),
                attempt <= RETRY_LIMIT,
                tries.len() == attempt,
                forall|t: int| 0 <= t < tries.len() ==> poll_run(#[trigger] tries[t], false),
                self.cart.trace() == start + timeout_ops(lba, blocks, tries),
            decreases RETRY_LIMIT - attempt,
        {
            let ghost before = self.cart.trace();
            self.cart.sd_enable();
            self.cart.sd_request(lba, blocks);
            self.cart.sd_read_state();
            let ghost asked = self.cart.trace();
            let answer = self.cart.wait_sd_response();
            let ghost polls = self.cart.trace().skip(asked.len() as int);
            proof {
                assert(self.cart.trace() =~= asked + polls);
                assert(self.cart.trace() =~= before + attempt_ops(lba, blocks, polls));
            }
            if answer.is_ok() {
                self.cart.sd_enable();
                let size: usize = blocks as usize * BLOCK_SIZE;
                self.cart.dma_copy(SD_BUF, buffer, offset, size);
                let ghost rec: ChunkRecord = (tries, Some(polls));
                proof {
                    assert(self.cart.trace() =~= start + chunk_ops(lba, blocks, offset, rec));
                }
                return (Ok(()), Ghost(rec));
            }
            self.cart.delay(RETRY_DELAY);
            proof {
                let next = tries.push(polls);
                assert(next.drop_last() =~= tries);
                assert(self.cart.trace() =~= start + timeout_ops(lba, blocks, next));
                tries = next;
            }
            attempt = attempt + 1;
        }
        let ghost rec: ChunkRecord = (tries, None);
        proof {
            assert(self.cart.trace() =~= start + chunk_ops(lba, blocks, offset, rec));
        }
        (Err(BlockIoError::ReadFailure), Ghost(rec))
    }

    /// The bus session of a read: OS mode, the chunks in order, then game
    /// mode again.
    fn transfer(&mut self, start_lba: Lba, buffer: &mut [u8]) -> (r: Result<(), BlockIoError>)
        requires
            old(buffer)@.len() % 512 == 0,
        ensures
            final(self).requested == old(self).requested,
            final(self).ended == old(self).ended,
            final(self).written == old(self).written,
            final(buffer)@.len() == old(buffer)@.len(),
            !addressable(start_lba, old(buffer)@.len() as int / 512) ==> {
                &&& r == Err::<(), BlockIoError>(BlockIoError::OutOfRange)
                &&& final(self).trace() == old(self).trace()
                &&& final(self).copied() == old(self).copied()
                &&& final(buffer)@ == old(buffer)@
            },
            addressable(start_lba, old(buffer)@.len() as int / 512) ==> {
                &&& r is Err ==> r == Err::<(), BlockIoError>(BlockIoError::ReadFailure)
                &&& old(self).copied().len() <= final(self).copied().len()
                &&& r is Ok ==> final(buffer)@ == joined(
                    final(self).copied().skip(old(self).copied().len() as int),
                )
                &&& exists|run: Seq<ChunkRecord>|
                    {
                        &&& #[trigger] run_valid(old(buffer)@.len() as int / 512, run, r is Ok)
                        &&& final(self).trace() == old(self).trace() + session_ops(
                            start_lba,
                            old(buffer)@.len() as int / 512,
                            run,
                        )
                    }
            },
    {
        let len: usize = buffer.len();
        let count: usize = len / BLOCK_SIZE;
        if start_lba as u64 + count as u64 > 0x1_0000_0000u64 {
            return Err(BlockIoError::OutOfRange);
        }
        let ghost start = self.cart.trace();
        let ghost c0 = self.cart.copied().len();
        self.cart.set_rompage(OS_MODE);
        self.cart.sd_enable();
        let ghost opened = self.cart.trace();
        let ghost mut run: Seq<ChunkRecord> = Seq::empty();
        let mut first: usize = 0;
        let mut ok = true;
        while ok && first < count
            invariant
                count == buffer@.len() as int / 512,
                len == buffer@.len(),
                buffer@.len() == old(buffer)@.len(),
                start_lba + count <= u32::MAX + 1,
                self.requested == old(self).requested,
                self.ended == old(self).ended,
                self.written == old(self).written,
                c0 == old(self).copied().len(),
                c0 <= self.cart.copied().len(),
                len % 512 == 0,
                ok ==> buffer@.subrange(0, first * 512) == joined(self.cart.copied().skip(c0 as int)),
                opened == start + config_ops(ROMPAGE, OS_MODE) + sd_control_ops(
                    SdControl::Enable,
                ),
                start == old(self).trace(),
                ok ==> first == if run.len() * CHUNK_BLOCKS < count {
                    run.len() * CHUNK_BLOCKS
                } else {
                    count as int
                },
                !ok ==> first == (run.len() - 1) * CHUNK_BLOCKS && first < count,
                !ok ==> run.len() >= 1 && run.last().1 is None,
                run.len() == 0 || (run.len() - 1) * CHUNK_BLOCKS < count,
                forall|c: int| 0 <= c < run.len() ==> chunk_valid(#[trigger] run[c]),
                forall|c: int|
                    0 <= c < run.len() ==> (#[trigger] run[c]).1 is Some || (!ok && c == run.len()
                        - 1),
                self.cart.trace() == opened + chunks_ops(start_lba, count as int, run),
            decreases count - first + if ok {
                1int
            } else {
                0int
            },
        {
            let blocks: usize = if count - first < CHUNK_BLOCKS {
                count - first
            } else {
                CHUNK_BLOCKS
            };
            let lba: u32 = (start_lba as usize + first) as u32;
            proof {
                assert((first + blocks) * 512 <= count * 512) by (nonlinear_arith)
                    requires first + blocks <= count;
                assert(count * 512 <= buffer@.len()) by (nonlinear_arith)
                    requires count == buffer@.len() as int / 512;
            }
            let ghost before = buffer@;
            let ghost parts = self.cart.copied().skip(c0 as int);
            let (answer, Ghost(rec)) = self.read_chunk(lba, blocks as u16, buffer, first * BLOCK_SIZE);
            proof {
                if answer.is_ok() {
                    let o = first * 512;
                    let piece = buffer@.subrange(o, o + blocks * 512);
                    let now = self.cart.copied().skip(c0 as int);
                    assert(now =~= parts.push(piece));
                    assert(now.drop_last() =~= parts);
                    assert(buffer@.subrange(0, o) =~= before.subrange(0, o));
                    assert(buffer@.subrange(0, o + blocks * 512) =~= buffer@.subrange(0, o) + piece);
                }
                let next = run.push(rec);
                assert(next.drop_last() =~= run);
                assert(self.cart.trace() =~= opened + chunks_ops(start_lba, count as int, next));
                run = next;
            }
            if answer.is_err() {
                ok = false;
            } else {
                first = first + blocks;
            }
        }
        self.cart.sd_disable();
        self.cart.set_rompage(GAME_MODE);
        proof {
            if ok {
                assert(count * 512 == len) by (nonlinear_arith)
                    requires count == len as int / 512, len % 512 == 0;
                assert(buffer@.subrange(0, first * 512) =~= buffer@);
            }
            assert(ok ==> run.len() * CHUNK_BLOCKS >= count);
            assert(run.len() <= chunk_count(count as int));
            assert(ok ==> run.len() == chunk_count(count as int));
            assert(self.cart.trace() =~= start + session_ops(start_lba, count as int, run));
            assert(run_valid(count as int, run, ok));
        }
        let r = if ok {
            Ok(())
        } else {
            Err(BlockIoError::ReadFailure)
        };
        proof {
            assert(run_valid(old(buffer)@.len() as int / 512, run, r is Ok));
        }
        r
    }
}

impl<B: RegisterBus> BlockIo<512> for SdCard<B> {
    closed spec fn reads(&self) -> Seq<(int, int)> {
        self.requested@
    }

    /// The card's bytes are not modelled: a read returns what the card sent.
    closed spec fn known(&self) -> bool {
        false
    }

    closed spec fn contents(&self) -> Seq<u8> {
        Seq::empty()
    }

    closed spec fn outcomes(&self) -> Seq<ReadOutcome> {
        self.ended@
    }

    closed spec fn writes(&self) -> Seq<WriteRecord> {
        self.written@
    }

    /// Reads the blocks in chunks of at most `CHUNK_BLOCKS`, giving each
    /// chunk `RETRY_LIMIT` attempts; the cartridge is left in game mode with
    /// the interface disabled whether the read succeeds or not. A read that
    /// succeeds leaves in `buffer` the bytes that its copies delivered, in
    /// order.
    fn read_blocks(&mut self, start_lba: Lba, buffer: &mut [u8]) -> (r: Result<(), BlockIoError>)
        ensures
            !addressable(start_lba, old(buffer)@.len() as int / 512) ==> {
                &&& r == Err::<(), BlockIoError>(BlockIoError::OutOfRange)
                &&& final(self).trace() == old(self).trace()
                &&& final(self).copied() == old(self).copied()
                &&& final(buffer)@ == old(buffer)@
            },
            addressable(start_lba, old(buffer)@.len() as int / 512) ==> {
                &&& r is Err ==> r == Err::<(), BlockIoError>(BlockIoError::ReadFailure)
                &&& old(self).copied().len() <= final(self).copied().len()
                &&& r is Ok ==> final(buffer)@ == joined(
                    final(self).copied().skip(old(self).copied().len() as int),
                )
                &&& exists|run: Seq<ChunkRecord>|
                    {
                        &&& #[trigger] run_valid(old(buffer)@.len() as int / 512, run, r is Ok)
                        &&& final(self).trace() == old(self).trace() + session_ops(
                            start_lba,
                            old(buffer)@.len() as int / 512,
                            run,
                        )
                    }
            },
    {
        let r = self.transfer(start_lba, buffer);
        self.requested = Ghost(self.requested@.push((start_lba as int, buffer@.len() as int / 512)));
        self.ended = Ghost(self.ended@.push((r, buffer@)));
        r
    }

    /// The card is read-only: no bus access is made.
    fn write_blocks(&mut self, start_lba: Lba, buffer: &[u8]) -> (r: Result<(), BlockIoError>)
        ensures
            r == Err::<(), BlockIoError>(BlockIoError::Unsupported),
            final(self).trace() == old(self).trace(),
            final(self).copied() == old(self).copied(),
    {
        let r = Err(BlockIoError::Unsupported);
        self.written = Ghost(self.written@.push((start_lba as int, buffer@, r)));
        r
    }
}

/// The blocks `start..end` of a device, seen as a device of their own.
pub struct Partition<'d, const BS: usize, D: BlockIo<BS>> {
    disk: &'d mut D,
    start: Lba,
    end: Lba,
    requested: Ghost<Seq<(int, int)>>,
    ended: Ghost<Seq<ReadOutcome>>,
    written: Ghost<Seq<WriteRecord>>,
}

/// Whether a request of `count` blocks from `lba` leaves the partition
/// `start..end`: its first block is at or past `end`, or it runs past `end`.
pub open spec fn outside_partition(start: Lba, end: Lba, lba: Lba, count: int) -> bool {
    start + lba >= end || start + lba + count > end
}

impl<'d, const BS: usize, D: BlockIo<BS>> Partition<'d, BS, D> {
    pub closed spec fn disk(&self) -> D {
        *self.disk
    }

    pub closed spec fn start(&self) -> Lba {
        self.start
    }

    pub closed spec fn end(&self) -> Lba {
        self.end
    }

    pub fn new(disk: &'d mut D, start: Lba, end: Lba) -> (r: Self)
        ensures
            r.disk() == *old(disk),
            r.start() == start,
            r.end() == end,
            r.reads() == Seq::<(int, int)>::empty(),
            r.outcomes() == Seq::<ReadOutcome>::empty(),
            r.writes() == Seq::<WriteRecord>::empty(),
    {
        Partition {
            disk,
            start,
            end,
            requested: Ghost(Seq::empty()),
            ended: Ghost(Seq::empty()),
            written: Ghost(Seq::empty()),
        }
    }

    /// Checks the request against the partition and hands it to the device.
    fn fetch(&mut self, start_lba: Lba, buffer: &mut [u8]) -> (r: Result<(), BlockIoError>)
        requires
            BS > 0,
            old(buffer)@.len() % (BS as nat) == 0,
        ensures
            final(self).requested == old(self).requested,
            final(self).ended == old(self).ended,
            final(self).written == old(self).written,
            final(self).start == old(self).start,
            final(self).end == old(self).end,
            final(buffer)@.len() == old(buffer)@.len(),
            final(self).disk().known() == old(self).disk().known(),
            final(self).disk().contents() == old(self).disk().contents(),
            final(self).disk().writes() == old(self).disk().writes(),
            outside_partition(
                old(self).start,
                old(self).end,
                start_lba,
                old(buffer)@.len() as int / (BS as int),
            ) ==> {
                &&& r == Err::<(), BlockIoError>(BlockIoError::OutOfRange)
                &&& final(self).disk() == old(self).disk()
                &&& final(buffer)@ == old(buffer)@
            },
            !outside_partition(
                old(self).start,
                old(self).end,
                start_lba,
                old(buffer)@.len() as int / (BS as int),
            ) ==> {
                &&& final(self).disk().reads() == old(self).disk().reads().push(
                    (old(self).start + start_lba, old(buffer)@.len() as int / (BS as int)),
                )
                &&& final(self).disk().outcomes() == old(self).disk().outcomes().push(
                    (r, final(buffer)@),
                )
            },
            old(self).known() && r is Ok ==> {
                &&& start_lba * BS + old(buffer)@.len() <= old(self).contents().len()
                &&& final(buffer)@ == old(self).contents().subrange(
                    start_lba * BS,
                    start_lba * BS + old(buffer)@.len(),
                )
            },
    {
        let count: usize = buffer.len() / BS;
        if self.start >= self.end || start_lba >= self.end - self.start || count as u64 > (self.end
            - self.start - start_lba) as u64 {
            return Err(BlockIoError::OutOfRange);
        }
        let lba: Lba = self.start + start_lba;
        let r = self.disk.read_blocks(lba, buffer);
        proof {
            if self.disk().known() && r is Ok {
                let len = buffer@.len() as int;
                assert(len == count * BS) by (nonlinear_arith)
                    requires count == len / (BS as int), len % (BS as int) == 0, BS > 0;
                assert((start_lba + count) * BS <= (self.end - self.start) * BS) by (nonlinear_arith)
                    requires start_lba + count <= self.end - self.start, BS > 0;
                assert(self.start * BS + start_lba * BS == lba * BS) by (nonlinear_arith)
                    requires lba == self.start + start_lba;
                assert((self.end - self.start) * BS == self.end * BS - self.start * BS) by (nonlinear_arith);
                assert((start_lba + count) * BS == start_lba * BS + count * BS) by (nonlinear_arith);
            }
        }
        r
    }
}

impl<'d, const BS: usize, D: BlockIo<BS>> BlockIo<BS> for Partition<'d, BS, D> {
    closed spec fn reads(&self) -> Seq<(int, int)> {
        self.requested@
    }

    closed spec fn outcomes(&self) -> Seq<ReadOutcome> {
        self.ended@
    }

    closed spec fn writes(&self) -> Seq<WriteRecord> {
        self.written@
    }

    closed spec fn known(&self) -> bool {
        &&& self.disk().known()
        &&& self.start <= self.end
        &&& self.end * BS <= self.disk().contents().len()
    }

    closed spec fn contents(&self) -> Seq<u8> {
        if self.start <= self.end && self.end * BS <= self.disk().contents().len() {
            self.disk().contents().subrange(self.start * BS, self.end * BS)
        } else {
            Seq::empty()
        }
    }

    /// Reads from the device, `start` blocks further on, and returns what
    /// the device returned; a request that leaves the partition fails
    /// without reaching the device.
    fn read_blocks(&mut self, start_lba: Lba, buffer: &mut [u8]) -> (r: Result<(), BlockIoError>)
        ensures
            outside_partition(
                old(self).start(),
                old(self).end(),
                start_lba,
                old(buffer)@.len() as int / (BS as int),
            ) ==> {
                &&& r == Err::<(), BlockIoError>(BlockIoError::OutOfRange)
                &&& final(self).disk() == old(self).disk()
                &&& final(buffer)@ == old(buffer)@
            },
            !outside_partition(
                old(self).start(),
                old(self).end(),
                start_lba,
                old(buffer)@.len() as int / (BS as int),
            ) ==> {
                &&& final(self).disk().reads() == old(self).disk().reads().push(
                    (old(self).start() + start_lba, old(buffer)@.len() as int / (BS as int)),
                )
                &&& final(self).disk().outcomes() == old(self).disk().outcomes().push(
                    (r, final(buffer)@),
                )
            },
            final(self).start() == old(self).start(),
            final(self).end() == old(self).end(),
    {
        let r = self.fetch(start_lba, buffer);
        self.requested = Ghost(
            self.requested@.push((start_lba as int, buffer@.len() as int / (BS as int))),
        );
        self.ended = Ghost(self.ended@.push((r, buffer@)));
        r
    }

    /// Writes to the device, `start` blocks further on, and returns what
    /// the device returned; a request that leaves the partition fails
    /// without reaching the device.
    fn write_blocks(&mut self, start_lba: Lba, buffer: &[u8]) -> (r: Result<(), BlockIoError>)
        ensures
            outside_partition(
                old(self).start(),
                old(self).end(),
                start_lba,
                buffer@.len() as int / (BS as int),
            ) ==> {
                &&& r == Err::<(), BlockIoError>(BlockIoError::OutOfRange)
                &&& final(self).disk() == old(self).disk()
            },
            !outside_partition(
                old(self).start(),
                old(self).end(),
                start_lba,
                buffer@.len() as int / (BS as int),
            ) ==> final(self).disk().writes() == old(self).disk().writes().push(
                (old(self).start() + start_lba, buffer@, r),
            ),
            final(self).start() == old(self).start(),
            final(self).end() == old(self).end(),
    {
        let count: usize = buffer.len() / BS;
        let r = if self.start >= self.end || start_lba >= self.end - self.start || count as u64 > (
        self.end - self.start - start_lba) as u64 {
            Err(BlockIoError::OutOfRange)
        } else {
            self.disk.write_blocks(self.start + start_lba, buffer)
        };
        self.written = Ghost(self.written@.push((start_lba as int, buffer@, r)));
        r
    }
}

} // verus!
