use ezsd::ezflash::{
    Cartridge, RegisterBus, SdControl, GAME_MODE, LED_CTRL, MAGIC_1, MAGIC_2, MAGIC_3, MAGIC_4,
    MAGIC_5, OS_MODE, POLL_LIMIT, ROMPAGE, SD_ADDR_H, SD_ADDR_L, SD_BUF, SD_BUSY, SD_COUNT,
    SD_CTRL, UNLOCK_A, UNLOCK_B,
};
use ezsd::fs::{BufferedIo, ErrorKind, SeekFrom};
use ezsd::sd::{BlockIo, BlockIoError, SdCard, RETRY_DELAY};

/// A simulated cartridge: records the bus accesses and answers SD reads
/// from a card image.
struct SimBus {
    card: Vec<u8>,
    writes: Vec<(u32, u16)>,
    polls: usize,
    delays: Vec<u32>,
    copies: Vec<(u32, usize, usize)>,
    /// Attempts answered before the timeouts below begin.
    answered_first: usize,
    /// Attempts that the card never answers.
    timeouts: usize,
    /// Busy reads before an answered attempt answers.
    busy_polls: usize,
    answering: bool,
    polls_in_attempt: usize,
    addr_l: u16,
    addr_h: u16,
}

impl SimBus {
    fn new(card: Vec<u8>) -> SimBus {
        SimBus {
            card,
            writes: Vec::new(),
            polls: 0,
            delays: Vec::new(),
            copies: Vec::new(),
            answered_first: 0,
            timeouts: 0,
            busy_polls: 3,
            answering: false,
            polls_in_attempt: 0,
            addr_l: 0,
            addr_h: 0,
        }
    }

    /// The values written to the three addressing registers, per request.
    fn requests(&self) -> Vec<(u16, u16, u16)> {
        let mut out = Vec::new();
        for w in self.writes.windows(3) {
            if w[0].0 == SD_ADDR_L && w[1].0 == SD_ADDR_H && w[2].0 == SD_COUNT {
                out.push((w[0].1, w[1].1, w[2].1));
            }
        }
        out
    }
}

impl RegisterBus for SimBus {
    fn write_u16(&mut self, addr: u32, value: u16) {
        self.writes.push((addr, value));
        if addr == SD_ADDR_L {
            self.addr_l = value;
        } else if addr == SD_ADDR_H {
            self.addr_h = value;
        } else if addr == SD_CTRL && value == 3 {
            self.answering = if self.answered_first > 0 {
                self.answered_first -= 1;
                true
            } else if self.timeouts > 0 {
                self.timeouts -= 1;
                false
            } else {
                true
            };
            self.polls_in_attempt = 0;
        }
    }

    fn read_u16(&mut self, addr: u32) -> u16 {
        assert_eq!(addr, SD_BUF);
        self.polls += 1;
        self.polls_in_attempt += 1;
        if self.answering && self.polls_in_attempt > self.busy_polls {
            0
        } else {
            SD_BUSY
        }
    }

    fn copy_from(&mut self, src: u32, dst: &mut [u8], offset: usize, len: usize) {
        self.copies.push((src, offset, len));
        let lba = ((self.addr_h as usize) << 16) | self.addr_l as usize;
        let at = lba * 512;
        dst[offset..offset + len].copy_from_slice(&self.card[at..at + len]);
    }

    fn delay(&mut self, count: u32) {
        self.delays.push(count);
    }
}

fn card_image(blocks: usize) -> Vec<u8> {
    (0..blocks * 512).map(|i| (i / 512) as u8 ^ (i % 253) as u8).collect()
}

fn config(reg: u32, value: u16) -> Vec<(u32, u16)> {
    vec![
        (MAGIC_1, UNLOCK_A),
        (MAGIC_2, UNLOCK_B),
        (MAGIC_3, UNLOCK_A),
        (MAGIC_4, UNLOCK_B),
        (reg, value),
        (MAGIC_5, UNLOCK_B),
    ]
}

#[test]
fn write_blocks_is_unsupported_without_bus_access() {
    let mut card = SdCard::new(SimBus::new(card_image(8)));
    let data = vec![0u8; 512];
    assert_eq!(card.write_blocks(0, &data), Err(BlockIoError::Unsupported));
    assert!(card.bus().writes.is_empty());
    assert_eq!(card.bus().polls, 0);
    assert!(card.bus().copies.is_empty());
}

#[test]
fn read_of_one_chunk_follows_the_protocol() {
    let img = card_image(8);
    let mut card = SdCard::new(SimBus::new(img.clone()));
    let mut buf = vec![0u8; 1024];
    assert_eq!(card.read_blocks(3, &mut buf), Ok(()));
    assert_eq!(buf, img[3 * 512..5 * 512].to_vec());

    let mut expected = Vec::new();
    expected.extend(config(ROMPAGE, OS_MODE));
    expected.extend(config(SD_CTRL, 1));
    expected.extend(config(SD_CTRL, 1));
    expected.extend(vec![
        (MAGIC_1, UNLOCK_A),
        (MAGIC_2, UNLOCK_B),
        (MAGIC_3, UNLOCK_A),
        (MAGIC_4, UNLOCK_B),
        (SD_ADDR_L, 3),
        (SD_ADDR_H, 0),
        (SD_COUNT, 2),
        (MAGIC_5, UNLOCK_B),
    ]);
    expected.extend(config(SD_CTRL, 3));
    expected.extend(config(SD_CTRL, 1));
    expected.extend(config(SD_CTRL, 0));
    expected.extend(config(ROMPAGE, GAME_MODE));
    assert_eq!(card.bus().writes, expected);
    assert_eq!(card.bus().polls, 4);
    assert_eq!(card.bus().copies, vec![(SD_BUF, 0usize, 1024usize)]);
    assert!(card.bus().delays.is_empty());
}

#[test]
fn read_is_split_into_chunks_of_four_blocks() {
    let start: u32 = 0x1_0002;
    let mut img = vec![0u8; (start as usize + 9) * 512];
    for (i, b) in img.iter_mut().enumerate().skip(start as usize * 512) {
        *b = (i % 241) as u8;
    }
    let mut card = SdCard::new(SimBus::new(img.clone()));
    let mut buf = vec![0u8; 9 * 512];
    assert_eq!(card.read_blocks(start, &mut buf), Ok(()));
    assert_eq!(buf, img[start as usize * 512..].to_vec());
    assert_eq!(card.bus().requests(), vec![(2, 1, 4), (6, 1, 4), (10, 1, 1)]);
    assert_eq!(
        card.bus().copies,
        vec![(SD_BUF, 0usize, 2048usize), (SD_BUF, 2048, 2048), (SD_BUF, 4096, 512)]
    );
}

#[test]
fn transient_timeout_is_retried() {
    let img = card_image(8);
    let mut bus = SimBus::new(img.clone());
    bus.timeouts = 1;
    let mut card = SdCard::new(bus);
    let mut buf = vec![0u8; 512];
    assert_eq!(card.read_blocks(1, &mut buf), Ok(()));
    assert_eq!(buf, img[512..1024].to_vec());
    assert_eq!(card.bus().delays, vec![RETRY_DELAY]);
    assert_eq!(card.bus().requests(), vec![(1, 0, 1), (1, 0, 1)]);
    assert_eq!(card.bus().polls, POLL_LIMIT as usize + 4);
}

#[test]
fn exhausted_retries_fail_and_restore_game_mode() {
    let mut bus = SimBus::new(card_image(8));
    bus.timeouts = 2;
    let mut card = SdCard::new(bus);
    let mut buf = vec![0u8; 512];
    assert_eq!(card.read_blocks(0, &mut buf), Err(BlockIoError::ReadFailure));
    assert_eq!(buf, vec![0u8; 512]);
    let writes = &card.bus().writes;
    let mut tail = config(SD_CTRL, 0);
    tail.extend(config(ROMPAGE, GAME_MODE));
    assert_eq!(writes[writes.len() - 12..].to_vec(), tail);
    assert_eq!(card.bus().delays, vec![RETRY_DELAY, RETRY_DELAY]);
    assert!(card.bus().copies.is_empty());
}

#[test]
fn failed_read_keeps_stream_position_and_cache() {
    let img = card_image(16);
    let mut bus = SimBus::new(img.clone());
    bus.answered_first = 1;
    bus.timeouts = 2;
    let card = SdCard::new(bus);
    let mut s: BufferedIo<512, 2048, SdCard<SimBus>> = BufferedIo::new(card).unwrap();
    let mut buf = [0u8; 16];
    assert_eq!(s.read(&mut buf), Ok(16));
    assert_eq!(buf.to_vec(), img[0..16].to_vec());
    // the second page's chunk times out on both attempts
    s.seek(SeekFrom::Start(2048 + 5)).unwrap();
    assert_eq!(s.read(&mut buf), Err(ErrorKind::Device(BlockIoError::ReadFailure)));
    assert_eq!(s.seek(SeekFrom::Current(0)), Ok(2053));
    // the first page is still cached: reading it needs no bus access
    let copies_before = s.get_ref().bus().copies.len();
    let polls_before = s.get_ref().bus().polls;
    s.seek(SeekFrom::Start(20)).unwrap();
    assert_eq!(s.read(&mut buf), Ok(16));
    assert_eq!(buf.to_vec(), img[20..36].to_vec());
    assert_eq!(s.get_ref().bus().copies.len(), copies_before);
    assert_eq!(s.get_ref().bus().polls, polls_before);
    // the card answers again
    s.seek(SeekFrom::Start(2053)).unwrap();
    assert_eq!(s.read(&mut buf), Ok(16));
    assert_eq!(buf.to_vec(), img[2053..2069].to_vec());
}

#[test]
fn stream_read_failure_leaves_position() {
    let mut bus = SimBus::new(card_image(16));
    bus.timeouts = 2;
    let card = SdCard::new(bus);
    let mut s: BufferedIo<512, 2048, SdCard<SimBus>> = BufferedIo::new(card).unwrap();
    s.seek(SeekFrom::Start(100)).unwrap();
    let mut buf = [0u8; 8];
    assert_eq!(s.read(&mut buf), Err(ErrorKind::Device(BlockIoError::ReadFailure)));
    assert_eq!(buf, [0u8; 8]);
    assert_eq!(s.seek(SeekFrom::Current(0)), Ok(100));
    // the card answers again: the same read now succeeds
    assert_eq!(s.read(&mut buf), Ok(8));
    assert_eq!(buf.to_vec(), card_image(16)[100..108].to_vec());
}

#[test]
fn read_past_last_block_address_is_refused() {
    let mut card = SdCard::new(SimBus::new(Vec::new()));
    let mut buf = vec![0u8; 1024];
    assert_eq!(card.read_blocks(u32::MAX, &mut buf), Err(BlockIoError::OutOfRange));
    assert!(card.bus().writes.is_empty());
}

#[test]
fn card_partition_offsets_requests() {
    let img = card_image(120);
    let mut card = SdCard::new(SimBus::new(img.clone()));
    {
        let mut part = card.partition(100, 110);
        let mut buf = vec![0u8; 512];
        assert_eq!(part.read_blocks(5, &mut buf), Ok(()));
        assert_eq!(buf, img[105 * 512..106 * 512].to_vec());
        assert_eq!(part.read_blocks(10, &mut buf), Err(BlockIoError::OutOfRange));
    }
    assert_eq!(card.bus().requests(), vec![(105, 0, 1)]);
}

#[test]
fn unanswered_poll_times_out() {
    let mut bus = SimBus::new(Vec::new());
    bus.timeouts = 1;
    let mut cart = Cartridge::new(bus);
    cart.sd_read_state();
    assert_eq!(cart.wait_sd_response(), Err(BlockIoError::HardwareTimeout));
    assert_eq!(cart.bus().polls, POLL_LIMIT as usize);
    cart.sd_read_state();
    assert_eq!(cart.wait_sd_response(), Ok(()));
    assert_eq!(cart.bus().polls, POLL_LIMIT as usize + 4);
}

#[test]
fn configuration_writes_are_bracketed() {
    let mut cart = Cartridge::new(SimBus::new(Vec::new()));
    cart.set_led_control(0b1011_0001);
    cart.set_psrampage(7);
    cart.set_rompage(GAME_MODE);
    let mut expected = config(LED_CTRL, 0b1011_0001);
    expected.extend(config(0x0986_0000, 7));
    expected.extend(config(ROMPAGE, GAME_MODE));
    assert_eq!(cart.bus().writes, expected);
}

#[test]
fn sd_control_codes() {
    assert_eq!(SdControl::Disable.code(), 0);
    assert_eq!(SdControl::Enable.code(), 1);
    assert_eq!(SdControl::ReadState.code(), 3);
    let mut cart = Cartridge::new(SimBus::new(Vec::new()));
    cart.sd_enable();
    cart.sd_disable();
    let mut expected = config(SD_CTRL, 1);
    expected.extend(config(SD_CTRL, 0));
    assert_eq!(cart.bus().writes, expected);
}
