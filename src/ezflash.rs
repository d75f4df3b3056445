//! Register protocol of the flash cartridge.
//!
//! Every configuration register of the cartridge only accepts a write after a
//! fixed unlock sequence, and the write only takes effect after a commit
//! write. `Cartridge` performs each access through a `RegisterBus` and keeps a
//! ghost record of every access it made, so the contracts below state the
//! exact sequence of bus operations that each call performs.
use vstd::prelude::*;

use crate::sd::BlockIoError;

verus! {

/// First unlock register.
pub const MAGIC_1: u32 = 0x09fe_0000;

/// Second unlock register.
pub const MAGIC_2: u32 = 0x0800_0000;

/// Third unlock register.
pub const MAGIC_3: u32 = 0x0802_0000;

/// Fourth unlock register.
pub const MAGIC_4: u32 = 0x0804_0000;

/// Commit register: latches the configuration write made since the unlock.
pub const MAGIC_5: u32 = 0x09fc_0000;

/// Value written to the first and third unlock registers.
pub const UNLOCK_A: u16 = 0xd200;

/// Value written to the second and fourth unlock registers, and to commit.
pub const UNLOCK_B: u16 = 0x1500;

/// ROM page-select register.
pub const ROMPAGE: u32 = 0x0988_0000;

/// PSRAM page-select register.
pub const PSRAMPAGE: u32 = 0x0986_0000;

/// LED control register.
pub const LED_CTRL: u32 = 0x096e_0000;

/// SD interface control register.
pub const SD_CTRL: u32 = 0x0940_0000;

/// Low 16 bits of the SD transfer's starting block.
pub const SD_ADDR_L: u32 = 0x0960_0000;

/// High 16 bits of the SD transfer's starting block.
pub const SD_ADDR_H: u32 = 0x0962_0000;

/// Number of blocks of the SD transfer.
pub const SD_COUNT: u32 = 0x0964_0000;

/// SD response register, which is also the base of the SD data buffer.
pub const SD_BUF: u32 = 0x09e0_0000;

/// Value of the response register while the card has not answered yet.
pub const SD_BUSY: u16 = 0xeee1;

/// Number of response-register reads before a request is given up.
pub const POLL_LIMIT: u32 = 100000;

/// ROM page that maps the SD control registers ("OS mode").
pub const OS_MODE: u16 = 0x8000;

/// ROM page that maps the running program ("game mode").
pub const GAME_MODE: u16 = 0x0200;

/// Codes of the SD control register.
#[derive(Clone, Copy, Debug, PartialEq, Eq, Structural)]
pub enum SdControl {
    Disable,
    Enable,
    ReadState,
}

impl SdControl {
    pub open spec fn spec_code(self) -> u16 {
        match self {
            SdControl::Disable => 0,
            SdControl::Enable => 1,
            SdControl::ReadState => 3,
        }
    }

    /// The value written to the SD control register for this code.
    pub fn code(&self) -> (r: u16)
        ensures
            r == self.spec_code(),
    {
        match self {
            SdControl::Disable => 0,
            SdControl::Enable => 1,
            SdControl::ReadState => 3,
        }
    }
}

/// One access to the cartridge's bus.
#[derive(Clone, Copy, Debug, PartialEq, Eq, Structural)]
pub enum BusOp {
    /// A 16-bit write of a value to a register.
    Write(u32, u16),
    /// A 16-bit read of a register, with the value it returned.
    Read(u32, u16),
    /// A bulk copy from a bus address into the destination buffer, at an
    /// offset and for a number of bytes.
    Copy(u32, usize, usize),
    /// A busy wait of a number of iterations.
    Delay(u32),
}

/// Raw access to the cartridge's memory-mapped registers.
///
/// An implementation performs the access and nothing else; what the driver
/// did with the bus is recorded by `Cartridge`, not by the implementation.
pub trait RegisterBus {
    /// Writes `value` to the 16-bit register at `addr`.
    fn write_u16(&mut self, addr: u32, value: u16);

    /// Reads the 16-bit register at `addr`.
    fn read_u16(&mut self, addr: u32) -> u16;

    /// Copies `len` bytes from the bus address `src` into
    /// `dst[offset..offset + len]`, in 16-bit units, and writes no other
    /// byte of `dst`. (A slice keeps its length under any `&mut` access.)
    fn copy_from(&mut self, src: u32, dst: &mut [u8], offset: usize, len: usize)
        requires
            offset + len <= old(dst)@.len(),
            len % 2 == 0,
        ensures
            final(dst)@.len() == old(dst)@.len(),
            forall|i: int|
                0 <= i < old(dst)@.len() && !(offset <= i < offset + len) ==> final(dst)@[i]
                    == #[trigger] old(dst)@[i],
    ;

    /// Waits for `count` iterations of a busy loop.
    fn delay(&mut self, count: u32);
}

/// The four writes that unlock the configuration registers.
pub open spec fn unlock_ops() -> Seq<BusOp> {
    seq![
        BusOp::Write(MAGIC_1, UNLOCK_A),
        BusOp::Write(MAGIC_2, UNLOCK_B),
        BusOp::Write(MAGIC_3, UNLOCK_A),
        BusOp::Write(MAGIC_4, UNLOCK_B),
    ]
}

/// The write that commits a configuration write.
pub open spec fn commit_ops() -> Seq<BusOp> {
    seq![BusOp::Write(MAGIC_5, UNLOCK_B)]
}

/// A configuration write of `value` to `reg`, bracketed by unlock and commit.
pub open spec fn config_ops(reg: u32, value: u16) -> Seq<BusOp> {
    unlock_ops() + seq![BusOp::Write(reg, value)] + commit_ops()
}

/// A write of `control`'s code to the SD control register.
pub open spec fn sd_control_ops(control: SdControl) -> Seq<BusOp> {
    config_ops(SD_CTRL, control.spec_code())
}

/// The transaction that addresses an SD read of `blocks` blocks from `lba`:
/// the low and high halves of the block address, then the block count.
pub open spec fn request_ops(lba: u32, blocks: u16) -> Seq<BusOp> {
    unlock_ops() + seq![
        BusOp::Write(SD_ADDR_L, lba as u16),
        BusOp::Write(SD_ADDR_H, (lba >> 16u32) as u16),
        BusOp::Write(SD_COUNT, blocks),
    ] + commit_ops()
}

/// Whether `ops` is a run of reads of the response register as
/// `wait_sd_response` makes it: busy values until the last read, which
/// answers (`answered`) or, after `POLL_LIMIT` reads, is still busy.
pub open spec fn poll_run(ops: Seq<BusOp>, answered: bool) -> bool {
    &&& 1 <= ops.len() <= POLL_LIMIT
    &&& forall|i: int| 0 <= i < ops.len() - 1 ==> ops[i] == BusOp::Read(SD_BUF, SD_BUSY)
    &&& ops.last() matches BusOp::Read(addr, value) && addr == SD_BUF && (answered <==> value
        != SD_BUSY)
    &&& !answered ==> ops.len() == POLL_LIMIT
}

/// Owner of the cartridge's bus, which records every access made through it.
pub struct Cartridge<B: RegisterBus> {
    bus: B,
    ops: Ghost<Seq<BusOp>>,
    landed: Ghost<Seq<Seq<u8>>>,
}

impl<B: RegisterBus> Cartridge<B> {
    /// The accesses made through this cartridge, oldest first.
    pub closed spec fn trace(&self) -> Seq<BusOp> {
        self.ops@
    }

    /// The bytes that each bulk copy delivered, oldest first.
    pub closed spec fn copied(&self) -> Seq<Seq<u8>> {
        self.landed@
    }

    pub fn new(bus: B) -> (r: Self)
        ensures
            r.trace() == Seq::<BusOp>::empty(),
            r.copied() == Seq::<Seq<u8>>::empty(),
    {
        Cartridge { bus, ops: Ghost(Seq::empty()), landed: Ghost(Seq::empty()) }
    }

    /// The bus that the accesses went to.
    pub fn bus(&self) -> &B {
        &self.bus
    }

    fn write(&mut self, addr: u32, value: u16)
        ensures
            final(self).trace() == old(self).trace().push(BusOp::Write(addr, value)),
            final(self).copied() == old(self).copied(),
    {
        self.bus.write_u16(addr, value);
        self.ops = Ghost(self.ops@.push(BusOp::Write(addr, value)));
    }

    fn read(&mut self, addr: u32) -> (r: u16)
        ensures
            final(self).trace() == old(self).trace().push(BusOp::Read(addr, r)),
            final(self).copied() == old(self).copied(),
    {
        let value = self.bus.read_u16(addr);
        self.ops = Ghost(self.ops@.push(BusOp::Read(addr, value)));
        value
    }

    /// Puts the configuration logic in its writable state.
    pub fn start_txn(&mut self)
        ensures
            final(self).copied() == old(self).copied(),
            final(self).trace() == old(self).trace() + unlock_ops(),
    {
        self.write(MAGIC_1, UNLOCK_A);
        self.write(MAGIC_2, UNLOCK_B);
        self.write(MAGIC_3, UNLOCK_A);
        self.write(MAGIC_4, UNLOCK_B);
        proof {
            assert(self.ops@ =~= old(self).trace() + unlock_ops());
        }
    }

    /// Latches the configuration write made since `start_txn`.
    pub fn finish_txn(&mut self)
        ensures
            final(self).copied() == old(self).copied(),
            final(self).trace() == old(self).trace() + commit_ops(),
    {
        self.write(MAGIC_5, UNLOCK_B);
        proof {
            assert(self.ops@ =~= old(self).trace() + commit_ops());
        }
    }

    /// Writes `value` to the configuration register `reg` within one
    /// transaction.
    fn configure(&mut self, reg: u32, value: u16)
        ensures
            final(self).copied() == old(self).copied(),
            final(self).trace() == old(self).trace() + config_ops(reg, value),
    {
        self.start_txn();
        self.write(reg, value);
        self.finish_txn();
        proof {
            assert(self.ops@ =~= old(self).trace() + config_ops(reg, value));
        }
    }

    /// Selects the ROM page.
    pub fn set_rompage(&mut self, page: u16)
        ensures
            final(self).copied() == old(self).copied(),
            final(self).trace() == old(self).trace() + config_ops(ROMPAGE, page),
    {
        self.configure(ROMPAGE, page);
    }

    /// Selects the PSRAM page.
    pub fn set_psrampage(&mut self, page: u16)
        ensures
            final(self).copied() == old(self).copied(),
            final(self).trace() == old(self).trace() + config_ops(PSRAMPAGE, page),
    {
        self.configure(PSRAMPAGE, page);
    }

    /// Sets the LED control bits.
    pub fn set_led_control(&mut self, status: u16)
        ensures
            final(self).copied() == old(self).copied(),
            final(self).trace() == old(self).trace() + config_ops(LED_CTRL, status),
    {
        self.configure(LED_CTRL, status);
    }

    /// Writes a code to the SD control register.
    pub fn set_sd_control(&mut self, control: SdControl)
        ensures
            final(self).copied() == old(self).copied(),
            final(self).trace() == old(self).trace() + sd_control_ops(control),
    {
        let code = control.code();
        self.configure(SD_CTRL, code);
    }

    pub fn sd_enable(&mut self)
        ensures
            final(self).copied() == old(self).copied(),
            final(self).trace() == old(self).trace() + sd_control_ops(SdControl::Enable),
    {
        self.set_sd_control(SdControl::Enable);
    }

    pub fn sd_disable(&mut self)
        ensures
            final(self).copied() == old(self).copied(),
            final(self).trace() == old(self).trace() + sd_control_ops(SdControl::Disable),
    {
        self.set_sd_control(SdControl::Disable);
    }

    pub fn sd_read_state(&mut self)
        ensures
            final(self).copied() == old(self).copied(),
            final(self).trace() == old(self).trace() + sd_control_ops(SdControl::ReadState),
    {
        self.set_sd_control(SdControl::ReadState);
    }

    /// Addresses an SD read of `blocks` blocks starting at `lba`.
    pub fn sd_request(&mut self, lba: u32, blocks: u16)
        ensures
            final(self).copied() == old(self).copied(),
            final(self).trace() == old(self).trace() + request_ops(lba, blocks),
    {
        let addr_l = lba as u16;
        let addr_h = (lba >> 16u32) as u16;
        self.start_txn();
        self.write(SD_ADDR_L, addr_l);
        self.write(SD_ADDR_H, addr_h);
        self.write(SD_COUNT, blocks);
        self.finish_txn();
        proof {
            assert(self.ops@ =~= old(self).trace() + request_ops(lba, blocks));
        }
    }

    /// Reads the SD response register once.
    pub fn sd_response(&mut self) -> (r: u16)
        ensures
            final(self).copied() == old(self).copied(),
            final(self).trace() == old(self).trace().push(BusOp::Read(SD_BUF, r)),
    {
        self.read(SD_BUF)
    }

    /// Polls the SD response register until it stops reporting busy, at most
    /// `POLL_LIMIT` times; a card that never answers gives `HardwareTimeout`.
    pub fn wait_sd_response(&mut self) -> (r: Result<(), BlockIoError>)
        ensures
            final(self).copied() == old(self).copied(),
            final(self).trace().len() > old(self).trace().len(),
            final(self).trace().take(old(self).trace().len() as int) == old(self).trace(),
            poll_run(final(self).trace().skip(old(self).trace().len() as int), r is Ok),
            r is Err ==> r == Err::<(), BlockIoError>(BlockIoError::HardwareTimeout),
    {
        let ghost start = self.ops@.len();
        let mut n: u32 = 0;
        while n < POLL_LIMIT
            invariant
                n <= POLL_LIMIT,
                self.ops@.len() == start + n,
                self.ops@.take(start as int) == old(self).trace(),
                self.landed == old(self).landed,
                forall|i: int|
                    start <= i < self.ops@.len() ==> self.ops@[i] == BusOp::Read(SD_BUF, SD_BUSY),
            decreases POLL_LIMIT - n,
        {
            let value = self.sd_response();
            n = n + 1;
            if value != SD_BUSY {
                proof {
                    assert(self.ops@.take(start as int) =~= old(self).trace());
                    let polls = self.ops@.skip(start as int);
                    assert forall|i: int| 0 <= i < polls.len() - 1 implies polls[i] == BusOp::Read(
                        SD_BUF,
                        SD_BUSY,
                    ) by {
                        assert(polls[i] == self.ops@[start + i]);
                    }
                }
                return Ok(());
            }
            proof {
                assert(self.ops@.take(start as int) =~= old(self).trace());
            }
        }
        proof {
            let polls = self.ops@.skip(start as int);
            assert forall|i: int| 0 <= i < polls.len() implies polls[i] == BusOp::Read(
                SD_BUF,
                SD_BUSY,
            ) by {
                assert(polls[i] == self.ops@[start + i]);
            }
        }
        Err(BlockIoError::HardwareTimeout)
    }

    /// Copies `size` bytes from the bus address `src` into
    /// `dst[offset..offset + size]` by DMA.
    pub fn dma_copy(&mut self, src: u32, dst: &mut [u8], offset: usize, size: usize)
        requires
            offset + size <= old(dst)@.len(),
            size % 2 == 0,
        ensures
            final(self).trace() == old(self).trace().push(BusOp::Copy(src, offset, size)),
            final(self).copied() == old(self).copied().push(
                final(dst)@.subrange(offset as int, offset + size),
            ),
            final(dst)@.len() == old(dst)@.len(),
            forall|i: int|
                0 <= i < old(dst)@.len() && !(offset <= i < offset + size) ==> final(dst)@[i]
                    == #[trigger] old(dst)@[i],
    {
        self.bus.copy_from(src, dst, offset, size);
        self.ops = Ghost(self.ops@.push(BusOp::Copy(src, offset, size)));
        self.landed = Ghost(self.landed@.push(dst@.subrange(offset as int, offset + size)));
    }

    /// Waits for `count` iterations of a busy loop.
    pub fn delay(&mut self, count: u32)
        ensures
            final(self).copied() == old(self).copied(),
            final(self).trace() == old(self).trace().push(BusOp::Delay(count)),
    {
        self.bus.delay(count);
        self.ops = Ghost(self.ops@.push(BusOp::Delay(count)));
    }
}

} // verus!
