use ezsd::fs::{BufferedIo, ErrorKind, SeekFrom};
use ezsd::ramdisk::RamDisk;
use ezsd::sd::BlockIoError;

type Stream = BufferedIo<512, 2048, RamDisk<512>>;

fn image(len: usize) -> Vec<u8> {
    (0..len).map(|i| (i * 7 + i / 512) as u8).collect()
}

fn stream(len: usize) -> Stream {
    BufferedIo::new(RamDisk::new(image(len))).unwrap()
}

/// Reads `total` bytes from `pos` with reads of at most `chunk` bytes.
fn read_in_pieces(s: &mut Stream, pos: u64, chunk: usize, total: usize) -> Vec<u8> {
    s.seek(SeekFrom::Start(pos)).unwrap();
    let mut out = Vec::new();
    while out.len() < total {
        let want = chunk.min(total - out.len());
        let mut buf = vec![0u8; want];
        let n = s.read(&mut buf).unwrap();
        assert!(n > 0);
        out.extend_from_slice(&buf[..n]);
    }
    out
}

#[test]
fn pieces_reassemble_device_bytes() {
    let img = image(16 * 1024);
    for &pos in &[0usize, 1, 511, 1900, 2047, 2048, 4000] {
        for &chunk in &[1usize, 100, 512, 600, 2048, 3000] {
            let mut s = stream(16 * 1024);
            let total = 5000;
            let got = read_in_pieces(&mut s, pos as u64, chunk, total);
            assert_eq!(got, img[pos..pos + total].to_vec(), "pos {} chunk {}", pos, chunk);
        }
    }
}

#[test]
fn reads_within_one_page_fetch_it_once() {
    let mut s = stream(8192);
    let mut buf = [0u8; 100];
    for _ in 0..20 {
        assert_eq!(s.read(&mut buf), Ok(100));
    }
    assert_eq!(s.get_ref().read_log(), &vec![(0u32, 4usize)]);
    // position 2000: the rest of the first page, then the next page once
    assert_eq!(s.read(&mut buf), Ok(48));
    assert_eq!(s.get_ref().read_log(), &vec![(0u32, 4usize)]);
    assert_eq!(s.read(&mut buf), Ok(100));
    assert_eq!(s.read(&mut buf), Ok(100));
    assert_eq!(s.get_ref().read_log(), &vec![(0u32, 4usize), (4, 4)]);
}

#[test]
fn read_straddling_two_pages() {
    let img = image(8192);
    let mut s = stream(8192);
    assert_eq!(s.seek(SeekFrom::Start(1900)), Ok(1900));
    let mut first = vec![0u8; 600];
    assert_eq!(s.read(&mut first), Ok(148));
    assert_eq!(s.get_ref().read_log(), &vec![(0u32, 4usize)]);
    let mut second = vec![0u8; 452];
    assert_eq!(s.read(&mut second), Ok(452));
    assert_eq!(s.get_ref().read_log(), &vec![(0u32, 4usize), (4, 4)]);
    let mut joined = first[..148].to_vec();
    joined.extend_from_slice(&second);
    assert_eq!(joined, img[1900..2500].to_vec());
}

#[test]
fn seek_current_composes() {
    let mut s = stream(4096);
    assert_eq!(s.seek(SeekFrom::Start(10)), Ok(10));
    assert_eq!(s.seek(SeekFrom::Current(5)), Ok(15));
    assert_eq!(s.seek(SeekFrom::Current(-15)), Ok(0));
    assert_eq!(s.seek(SeekFrom::Current(7)), Ok(7));
}

#[test]
fn seek_before_start_is_refused() {
    let mut s = stream(4096);
    assert_eq!(s.seek(SeekFrom::Start(15)), Ok(15));
    assert_eq!(s.seek(SeekFrom::Current(-16)), Err(ErrorKind::OutOfRange));
    assert_eq!(s.seek(SeekFrom::Current(0)), Ok(15));
}

#[test]
fn seek_from_end_counts_back_from_largest_position() {
    let mut s = stream(4096);
    assert_eq!(s.seek(SeekFrom::End(0)), Ok(usize::MAX as u64));
    assert_eq!(s.seek(SeekFrom::End(5)), Ok(usize::MAX as u64 - 5));
    assert_eq!(s.seek(SeekFrom::End(-1)), Err(ErrorKind::OutOfRange));
    assert_eq!(s.seek(SeekFrom::Current(0)), Ok(usize::MAX as u64 - 5));
}

#[test]
fn read_past_block_addresses_is_refused() {
    let mut s: BufferedIo<512, 2048, RamDisk<512>> =
        BufferedIo::new(RamDisk::new(image(4096))).unwrap();
    s.seek(SeekFrom::End(0)).unwrap();
    let mut buf = [0u8; 8];
    let r = s.read(&mut buf);
    if usize::MAX as u64 / 512 > u32::MAX as u64 {
        assert_eq!(r, Err(ErrorKind::OutOfRange));
        assert_eq!(s.lba(), None);
        assert!(s.get_ref().read_log().is_empty());
    }
}

#[test]
fn sizes_that_do_not_fit_are_refused() {
    let r = BufferedIo::<512, 1000, RamDisk<512>>::new(RamDisk::new(image(4096)));
    assert!(matches!(r, Err(ErrorKind::InvalidConfiguration)));
    let r = BufferedIo::<512, 256, RamDisk<512>>::new(RamDisk::new(image(4096)));
    assert!(matches!(r, Err(ErrorKind::InvalidConfiguration)));
    let r = BufferedIo::<512, 3072, RamDisk<512>>::new(RamDisk::new(image(4096)));
    assert!(matches!(r, Err(ErrorKind::InvalidConfiguration)));
    let r = BufferedIo::<512, 512, RamDisk<512>>::new(RamDisk::new(image(4096)));
    assert!(r.is_ok());
}

#[test]
fn write_is_unsupported_and_changes_nothing() {
    let img = image(4096);
    let mut s = stream(4096);
    assert_eq!(s.write(&[1, 2, 3]), Err(ErrorKind::Unsupported));
    assert_eq!(s.seek(SeekFrom::Current(0)), Ok(0));
    let mut buf = [0u8; 3];
    assert_eq!(s.read(&mut buf), Ok(3));
    assert_eq!(buf.to_vec(), img[0..3].to_vec());
    assert_eq!(s.flush(), Ok(()));
}

#[test]
fn device_failure_leaves_position() {
    // an image shorter than one page cannot serve a whole page
    let mut s = stream(1024);
    s.seek(SeekFrom::Start(10)).unwrap();
    let mut buf = [0u8; 4];
    assert_eq!(s.read(&mut buf), Err(ErrorKind::Device(BlockIoError::OutOfRange)));
    assert_eq!(buf, [0u8; 4]);
    assert_eq!(s.seek(SeekFrom::Current(0)), Ok(10));
}

#[test]
fn page_lba_of_position() {
    let mut s = stream(4096);
    assert_eq!(s.lba(), Some(0));
    s.seek(SeekFrom::Start(2047)).unwrap();
    assert_eq!(s.lba(), Some(0));
    s.seek(SeekFrom::Start(2048)).unwrap();
    assert_eq!(s.lba(), Some(4));
    s.seek(SeekFrom::Start(5000)).unwrap();
    assert_eq!(s.lba(), Some(8));
}

#[test]
fn short_buffer_takes_what_fits() {
    let img = image(4096);
    let mut s = stream(4096);
    s.seek(SeekFrom::Start(100)).unwrap();
    let mut buf = [0u8; 5];
    assert_eq!(s.read(&mut buf), Ok(5));
    assert_eq!(buf.to_vec(), img[100..105].to_vec());
    let mut empty: [u8; 0] = [];
    assert_eq!(s.read(&mut empty), Ok(0));
    assert_eq!(s.seek(SeekFrom::Current(0)), Ok(105));
}
