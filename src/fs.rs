//! A byte stream over a block device that keeps one page in memory.
use vstd::prelude::*;

use vstd::arithmetic::div_mod::{lemma_div_multiples_vanish, lemma_fundamental_div_mod};

use crate::sd::{BlockIo, BlockIoError, Lba};

verus! {

/// Errors of the byte stream.
#[derive(Clone, Copy, Debug, PartialEq, Eq, Structural)]
pub enum ErrorKind {
    /// A read ended before the buffer was full.
    ReadExactError,
    /// The block and page sizes do not fit together.
    InvalidConfiguration,
    /// The stream cannot perform the operation.
    Unsupported,
    /// The position lies outside what the stream can address.
    OutOfRange,
    /// The block device failed.
    Device(BlockIoError),
}

/// A position to seek to.
#[derive(Clone, Copy, Debug, PartialEq, Eq, Structural)]
pub enum SeekFrom {
    /// That many bytes from the start.
    Start(u64),
    /// That many bytes back from the largest position, `usize::MAX`; the
    /// stream does not know the device's length.
    End(i64),
    /// That many bytes from the current position.
    Current(i64),
}

pub open spec fn is_power_of_two(n: nat) -> bool
    decreases n,
{
    if n <= 1 {
        n == 1
    } else {
        n % 2 == 0 && is_power_of_two(n / 2)
    }
}

/// Block size `bs` and page size `ps` fit together: the page is a power of
/// two and a whole number of blocks.
pub open spec fn valid_sizes(bs: int, ps: int) -> bool {
    &&& bs > 0
    &&& ps >= bs
    &&& ps % bs == 0
    &&& is_power_of_two(ps as nat)
}

/// First byte of the page that holds `pos`.
pub open spec fn page_start(pos: int, ps: int) -> int {
    pos / ps * ps
}

/// First block of the page that holds `pos`.
pub open spec fn page_lba(pos: int, bs: int, ps: int) -> int {
    page_start(pos, ps) / bs
}

/// Number of bytes that a read at `pos` into a buffer of `want` bytes
/// returns: as many as fit, up to the end of the page, and never past the
/// largest position.
pub open spec fn read_len(pos: int, want: int, ps: int) -> int {
    let to_page_end = page_start(pos, ps) + ps - pos;
    let n = if want < to_page_end {
        want
    } else {
        to_page_end
    };
    if n < usize::MAX - pos {
        n
    } else {
        usize::MAX - pos
    }
}

/// The position that a seek from `pos` aims at.
pub open spec fn seek_target(pos: int, from: SeekFrom) -> int {
    match from {
        SeekFrom::Start(n) => n as int,
        SeekFrom::End(n) => usize::MAX - n,
        SeekFrom::Current(n) => pos + n,
    }
}

/// A byte stream over a device with blocks of `BS` bytes, read a page of
/// `PS` bytes at a time, with the last page read kept in memory.
pub struct BufferedIo<const BS: usize, const PS: usize, IO: BlockIo<BS>> {
    io: IO,
    /// Current position in the stream.
    pos: usize,
    cache: PageCache<BS, PS>,
}

/// One page buffer, and the first block of the page that it holds, if it
/// holds one.
struct PageCache<const BS: usize, const PS: usize> {
    cached: Option<Lba>,
    page: Vec<u8>,
}

impl<const BS: usize, const PS: usize> PageCache<BS, PS> {
    /// The sizes fit together and the buffer holds one page.
    #[verifier::type_invariant]
    closed spec fn inv(&self) -> bool {
        &&& valid_sizes(BS as int, PS as int)
        &&& self.page@.len() == PS
    }
}

/// What a read of `stream` does, from `pre` to `post`, with the buffer
/// going from `before` to `after` and result `r`.
///
/// The read looks at the page that holds the position. If that page is not
/// the cached one, it is read from the device, with one request of a whole
/// page; otherwise the device is not touched. The bytes from the position
/// to the end of the page, as many as the buffer takes, are copied to the
/// buffer and the position moves past them. On a miss the read succeeds
/// exactly when the device read succeeds, and then caches the bytes that
/// the device returned; a device error `e` gives `Device(e)` and leaves the
/// position, the cache and the buffer as they were.
pub open spec fn read_spec<const BS: usize, const PS: usize, IO: BlockIo<BS>>(
    pre: BufferedIo<BS, PS, IO>,
    post: BufferedIo<BS, PS, IO>,
    before: Seq<u8>,
    after: Seq<u8>,
    r: Result<usize, ErrorKind>,
) -> bool {
    let pos = pre.pos();
    let lba = page_lba(pos, BS as int, PS as int);
    let off = pos - page_start(pos, PS as int);
    let hit = pre.cached() == Some(lba as Lba);
    let got = post.io().outcomes().last();
    &&& after.len() == before.len()
    &&& post.io().writes() == pre.io().writes()
    &&& post.io().known() == pre.io().known()
    &&& post.io().contents() == pre.io().contents()
    &&& pre.coherent() ==> post.coherent()
    &&& if lba > u32::MAX {
        &&& r == Err::<usize, ErrorKind>(ErrorKind::OutOfRange)
        &&& post == pre
        &&& after == before
    } else {
        &&& hit ==> post.io() == pre.io()
        &&& !hit ==> post.io().reads() == pre.io().reads().push((lba, PS as int / BS as int))
        &&& !hit ==> post.io().outcomes() == pre.io().outcomes().push(got)
        &&& !hit ==> (r is Ok <==> got.0 is Ok)
        &&& match r {
            Ok(n) => {
                &&& n == read_len(pos, before.len() as int, PS as int)
                &&& post.pos() == pos + n
                &&& post.cached() == Some(lba as Lba)
                &&& hit ==> post.page() == pre.page()
                &&& !hit ==> post.page() == got.1
                &&& after == post.page().subrange(off, off + n) + before.skip(n as int)
                &&& pre.io().known() && pre.coherent() ==> pos + n <= pre.io().contents().len()
                &&& pre.io().known() && pre.coherent() ==> after.take(n as int)
                    == pre.io().contents().subrange(
                    pos,
                    pos + n,
                )
            },
            Err(e) => {
                &&& !hit
                &&& got.0 is Err
                &&& e == ErrorKind::Device(got.0->Err_0)
                &&& post.pos() == pos
                &&& post.cached() == pre.cached()
                &&& post.page() == pre.page()
                &&& after == before
            },
        }
    }
}

/// What a seek of `stream` to `from` does, from `pre` to `post`, with
/// result `r`: the position moves to the target and the result is the new
/// position; a target outside `0..=usize::MAX` gives `OutOfRange` and leaves
/// the position. Nothing else changes.
pub open spec fn seek_spec<const BS: usize, const PS: usize, IO: BlockIo<BS>>(
    pre: BufferedIo<BS, PS, IO>,
    post: BufferedIo<BS, PS, IO>,
    from: SeekFrom,
    r: Result<u64, ErrorKind>,
) -> bool {
    let target = seek_target(pre.pos(), from);
    &&& post.io() == pre.io()
    &&& post.cached() == pre.cached()
    &&& post.page() == pre.page()
    &&& 0 <= target <= usize::MAX ==> {
        &&& post.pos() == target
        &&& r == Ok::<u64, ErrorKind>(target as u64)
    }
    &&& !(0 <= target <= usize::MAX) ==> {
        &&& post.pos() == pre.pos()
        &&& r == Err::<u64, ErrorKind>(ErrorKind::OutOfRange)
    }
}

/// The facts about pages that reads rely on.
proof fn lemma_page(pos: int, bs: int, ps: int)
    requires
        valid_sizes(bs, ps),
        pos >= 0,
    ensures
        0 <= page_start(pos, ps) <= pos < page_start(pos, ps) + ps,
        page_lba(pos, bs, ps) >= 0,
        page_lba(pos, bs, ps) * bs == page_start(pos, ps),
{
    lemma_fundamental_div_mod(pos, ps);
    lemma_fundamental_div_mod(ps, bs);
    let q = pos / ps;
    let m = ps / bs;
    assert(q >= 0) by (nonlinear_arith)
        requires pos >= 0, ps > 0, q == pos / ps;
    assert(q * ps == bs * (q * m)) by (nonlinear_arith)
        requires ps == bs * m;
    lemma_div_multiples_vanish(q * m, bs);
    assert(page_start(pos, ps) == q * ps);
    assert(page_lba(pos, bs, ps) == q * m);
    assert((q * m) * bs == q * ps) by (nonlinear_arith)
        requires ps == bs * m;
    assert(q * m >= 0) by (nonlinear_arith)
        requires q >= 0, m >= 0;
    assert(m >= 0) by (nonlinear_arith)
        requires ps > 0, bs > 0, m == ps / bs;
}

fn power_of_two(n: usize) -> (r: bool)
    ensures
        r == is_power_of_two(n as nat),
{
    let mut m: usize = n;
    while m > 1 && m % 2 == 0
        invariant
            is_power_of_two(m as nat) == is_power_of_two(n as nat),
        decreases m,
    {
        m = m / 2;
    }
    m == 1
}

impl<const BS: usize, const PS: usize, IO: BlockIo<BS>> BufferedIo<BS, PS, IO> {
    pub closed spec fn io(&self) -> IO {
        self.io
    }

    pub closed spec fn pos(&self) -> int {
        self.pos as int
    }

    /// First block of the cached page, if a page is cached.
    pub closed spec fn cached(&self) -> Option<Lba> {
        self.cache.cached
    }

    /// The cached page's bytes.
    pub closed spec fn page(&self) -> Seq<u8> {
        self.cache.page@
    }

    /// A cached page holds that page's bytes as the device holds them.
    pub open spec fn coherent(&self) -> bool {
        self.cached() matches Some(l) ==> (self.io().known() ==> {
            &&& l * BS + PS <= self.io().contents().len()
            &&& self.page() == self.io().contents().subrange(l * BS, l * BS + PS)
        })
    }

    /// A stream at position 0 with no page cached; sizes that do not fit
    /// together give `InvalidConfiguration`.
    pub fn new(io: IO) -> (r: Result<Self, ErrorKind>)
        ensures
            r is Ok <==> valid_sizes(BS as int, PS as int),
            r is Err ==> r == Err::<Self, ErrorKind>(ErrorKind::InvalidConfiguration),
            r matches Ok(s) ==> s.coherent() && s.io() == io && s.pos() == 0 && s.cached() is None,
    {
        if BS == 0 || PS < BS || PS % BS != 0 || !power_of_two(PS) {
            return Err(ErrorKind::InvalidConfiguration);
        }
        let page: Vec<u8> = vec![0u8; PS];
        Ok(BufferedIo { io, pos: 0, cache: PageCache { cached: None, page } })
    }

    /// First block of the page that holds the position, if it has a 32-bit
    /// block address.
    pub fn lba(&self) -> (r: Option<Lba>)
        ensures
            r == if page_lba(self.pos(), BS as int, PS as int) <= u32::MAX {
                Some(page_lba(self.pos(), BS as int, PS as int) as Lba)
            } else {
                None
            },
    {
        proof {
            use_type_invariant(&self.cache);
            lemma_page(self.pos as int, BS as int, PS as int);
        }
        let first = self.pos / PS * PS / BS;
        if first > u32::MAX as usize {
            None
        } else {
            Some(first as Lba)
        }
    }

    /// Reads from the position into `buf`, up to the end of the page that
    /// holds the position, and returns the number of bytes read.
    pub fn read(&mut self, buf: &mut [u8]) -> (r: Result<usize, ErrorKind>)
        ensures
            valid_sizes(BS as int, PS as int),
            read_spec(*old(self), *final(self), old(buf)@, final(buf)@, r),
    {
        proof {
            use_type_invariant(&self.cache);
            lemma_page(self.pos as int, BS as int, PS as int);
        }
        let start: usize = self.pos / PS * PS;
        let first: usize = start / BS;
        if first > u32::MAX as usize {
            return Err(ErrorKind::OutOfRange);
        }
        let lba: Lba = first as Lba;
        let hit = match self.cache.cached {
            Some(l) => l == lba,
            None => false,
        };
        if !hit {
            let mut fresh: Vec<u8> = vec![0u8; PS];
            proof {
                assert(fresh@.len() % (BS as nat) == 0);
            }
            match self.io.read_blocks(lba, fresh.as_mut_slice()) {
                Ok(()) => {},
                Err(e) => {
                    return Err(ErrorKind::Device(e));
                },
            }
            self.cache = PageCache { cached: Some(lba), page: fresh };
        }
        let off: usize = self.pos - start;
        let mut n: usize = PS - off;
        if buf.len() < n {
            n = buf.len();
        }
        if usize::MAX - self.pos < n {
            n = usize::MAX - self.pos;
        }
        proof {
            use_type_invariant(&self.cache);
        }
        let ghost before = buf@;
        let mut i: usize = 0;
        while i < n
            invariant
                off + n <= PS,
                self.cache.page@.len() == PS,
                n <= buf@.len(),
                buf@.len() == before.len(),
                i <= n,
                forall|k: int| 0 <= k < i ==> buf@[k] == self.cache.page@[off + k],
                forall|k: int| n <= k < buf@.len() ==> buf@[k] == before[k],
            decreases n - i,
        {
            buf[i] = self.cache.page[off + i];
            i = i + 1;
        }
        self.pos = self.pos + n;
        proof {
            assert(buf@ =~= self.cache.page@.subrange(off as int, off + n) + before.skip(n as int));
            if self.io.known() && old(self).coherent() {
                assert(buf@.take(n as int) =~= self.io.contents().subrange(
                    old(self).pos as int,
                    old(self).pos + n,
                ));
            }
        }
        Ok(n)
    }

    /// Writing is not supported: the call fails and changes nothing.
    pub fn write(&mut self, buf: &[u8]) -> (r: Result<usize, ErrorKind>)
        ensures
            r == Err::<usize, ErrorKind>(ErrorKind::Unsupported),
            *final(self) == *old(self),
    {
        Err(ErrorKind::Unsupported)
    }

    /// Nothing is ever pending: the call succeeds and changes nothing.
    pub fn flush(&mut self) -> (r: Result<(), ErrorKind>)
        ensures
            r == Ok::<(), ErrorKind>(()),
            *final(self) == *old(self),
    {
        Ok(())
    }

    /// Moves the position to the target of `from` and returns it; a target
    /// outside `0..=usize::MAX` gives `OutOfRange` and leaves the position.
    pub fn seek(&mut self, from: SeekFrom) -> (r: Result<u64, ErrorKind>)
        ensures
            seek_spec(*old(self), *final(self), from, r),
    {
        let target: i128 = match from {
            SeekFrom::Start(n) => n as i128,
            SeekFrom::End(n) => usize::MAX as i128 - n as i128,
            SeekFrom::Current(n) => self.pos as i128 + n as i128,
        };
        if target < 0 || target > usize::MAX as i128 {
            return Err(ErrorKind::OutOfRange);
        }
        self.pos = target as usize;
        Ok(target as u64)
    }

    /// The device that the stream reads from.
    pub fn get_ref(&self) -> (r: &IO)
        ensures
            *r == self.io(),
    {
        &self.io
    }
}

/// A successful read into a non-empty buffer below the largest position
/// returns at least one byte.
proof fn lemma_read_progress<const BS: usize, const PS: usize, IO: BlockIo<BS>>(
    pre: BufferedIo<BS, PS, IO>,
    post: BufferedIo<BS, PS, IO>,
    before: Seq<u8>,
    after: Seq<u8>,
    n: usize,
)
    requires
        read_spec(pre, post, before, after, Ok::<usize, ErrorKind>(n)),
        valid_sizes(BS as int, PS as int),
        before.len() > 0,
        pre.pos() < usize::MAX,
    ensures
        n > 0,
{
    lemma_page(pre.pos(), BS as int, PS as int);
}

/// The bytes that a run of reads returned, end to end: the first
/// `counts[i]` bytes of each buffer `afters[i]`.
pub open spec fn returned(afters: Seq<Seq<u8>>, counts: Seq<usize>) -> Seq<u8>
    decreases counts.len(),
{
    if counts.len() == 0 || afters.len() != counts.len() {
        Seq::empty()
    } else {
        returned(afters.drop_last(), counts.drop_last()) + afters.last().take(
            counts.last() as int,
        )
    }
}

/// Whether `states` are the states of a stream across a run of successful
/// reads: read `i` goes from `states[i]` to `states[i + 1]`, its buffer
/// from `befores[i]` to `afters[i]`, and returns `Ok(counts[i])`.
pub open spec fn read_run<const BS: usize, const PS: usize, IO: BlockIo<BS>>(
    states: Seq<BufferedIo<BS, PS, IO>>,
    befores: Seq<Seq<u8>>,
    afters: Seq<Seq<u8>>,
    counts: Seq<usize>,
) -> bool {
    &&& states.len() == counts.len() + 1
    &&& befores.len() == counts.len()
    &&& afters.len() == counts.len()
    &&& forall|i: int|
        0 <= i < counts.len() ==> read_spec(
            #[trigger] states[i],
            states[i + 1],
            befores[i],
            afters[i],
            Ok::<usize, ErrorKind>(counts[i]),
        )
}

/// Reading a stream piece by piece gives the device's bytes: over a run of
/// successful reads of a device whose contents are known, the bytes
/// returned, end to end, are the device's bytes from the first position to
/// the last, as one read of that range from the device returns them, however
/// the pieces fall on page boundaries; and each read into a non-empty
/// buffer below the largest position returns at least one byte. (A stream
/// made by `new` and changed only by its methods is always `coherent`.)
pub proof fn lemma_reads_reassemble<const BS: usize, const PS: usize, IO: BlockIo<BS>>(
    states: Seq<BufferedIo<BS, PS, IO>>,
    befores: Seq<Seq<u8>>,
    afters: Seq<Seq<u8>>,
    counts: Seq<usize>,
)
    requires
        read_run(states, befores, afters, counts),
        counts.len() >= 1,
        states[0].io().known(),
        states[0].coherent(),
        valid_sizes(BS as int, PS as int),
    ensures
        states.last().io().known(),
        states.last().coherent(),
        forall|i: int|
            0 <= i < counts.len() && befores[i].len() > 0 && states[i].pos() < usize::MAX
                ==> #[trigger] counts[i] > 0,
        states.last().io().contents() == states[0].io().contents(),
        states[0].pos() <= states.last().pos() <= states[0].io().contents().len(),
        returned(afters, counts) == states[0].io().contents().subrange(
            states[0].pos(),
            states.last().pos(),
        ),
    decreases counts.len(),
{
    assert forall|i: int|
        0 <= i < counts.len() && befores[i].len() > 0 && states[i].pos() < usize::MAX implies #[trigger] counts[i]
        > 0 by {
        lemma_read_progress(states[i], states[i + 1], befores[i], afters[i], counts[i]);
    }
    let n = counts.len();
    if n == 1 {
        assert(read_spec(
            states[0],
            states[1],
            befores[0],
            afters[0],
            Ok::<usize, ErrorKind>(counts[0]),
        ));
        assert(returned(afters.drop_last(), counts.drop_last()) =~= Seq::<u8>::empty());
        assert(returned(afters, counts) =~= afters[0].take(counts[0] as int));
    } else {
        let prev = states.drop_last();
        assert(read_run(prev, befores.drop_last(), afters.drop_last(), counts.drop_last())) by {
            assert forall|i: int| 0 <= i < n - 1 implies read_spec(
                #[trigger] prev[i],
                prev[i + 1],
                befores.drop_last()[i],
                afters.drop_last()[i],
                Ok::<usize, ErrorKind>(counts.drop_last()[i]),
            ) by {
                assert(read_spec(
                    states[i],
                    states[i + 1],
                    befores[i],
                    afters[i],
                    Ok::<usize, ErrorKind>(counts[i]),
                ));
            }
        }
        lemma_reads_reassemble(prev, befores.drop_last(), afters.drop_last(), counts.drop_last());
        let k = n - 1;
        assert(read_spec(
            states[k],
            states[k + 1],
            befores[k],
            afters[k],
            Ok::<usize, ErrorKind>(counts[k]),
        ));
        let c = states[0].io().contents();
        assert(c.subrange(states[0].pos(), states[k].pos()) + c.subrange(
            states[k].pos(),
            states[k + 1].pos(),
        ) =~= c.subrange(states[0].pos(), states[k + 1].pos()));
    }
}

/// Whether `states` are the states of a stream across a run of steps, each
/// a seek or a successful read: when `seeks[i]`, step `i` is a seek to
/// `froms[i]` with result `seeked[i]`; otherwise it is a read with buffer
/// going from `befores[i]` to `afters[i]` that returns `Ok(counts[i])`.
pub open spec fn step_run<const BS: usize, const PS: usize, IO: BlockIo<BS>>(
    states: Seq<BufferedIo<BS, PS, IO>>,
    seeks: Seq<bool>,
    froms: Seq<SeekFrom>,
    seeked: Seq<Result<u64, ErrorKind>>,
    befores: Seq<Seq<u8>>,
    afters: Seq<Seq<u8>>,
    counts: Seq<usize>,
) -> bool {
    &&& states.len() == seeks.len() + 1
    &&& froms.len() == seeks.len()
    &&& seeked.len() == seeks.len()
    &&& befores.len() == seeks.len()
    &&& afters.len() == seeks.len()
    &&& counts.len() == seeks.len()
    &&& forall|i: int|
        0 <= i < seeks.len() ==> if #[trigger] seeks[i] {
            seek_spec(states[i], states[i + 1], froms[i], seeked[i])
        } else {
            read_spec(
                states[i],
                states[i + 1],
                befores[i],
                afters[i],
                Ok::<usize, ErrorKind>(counts[i]),
            )
        }
}

/// Reads within one page ask the device for that page at most once, with
/// any seeks between them: over a run of seeks and successful reads in
/// which every read starts in the page of block `lba`, the device gets no
/// request if that page was cached at the start, and otherwise at most one,
/// for that whole page, at the first read; after any read the page stays
/// cached.
pub proof fn lemma_one_request_per_page<const BS: usize, const PS: usize, IO: BlockIo<BS>>(
    states: Seq<BufferedIo<BS, PS, IO>>,
    seeks: Seq<bool>,
    froms: Seq<SeekFrom>,
    seeked: Seq<Result<u64, ErrorKind>>,
    befores: Seq<Seq<u8>>,
    afters: Seq<Seq<u8>>,
    counts: Seq<usize>,
    lba: Lba,
)
    requires
        step_run(states, seeks, froms, seeked, befores, afters, counts),
        forall|i: int|
            0 <= i < seeks.len() && !seeks[i] ==> page_lba(
                #[trigger] states[i].pos(),
                BS as int,
                PS as int,
            ) == lba,
    ensures
        states[0].cached() == Some(lba) ==> {
            &&& states.last().io() == states[0].io()
            &&& states.last().cached() == Some(lba)
        },
        states[0].cached() != Some(lba) ==> {
            ||| states.last().io() == states[0].io() && states.last().cached()
                == states[0].cached()
            ||| states.last().io().reads() == states[0].io().reads().push(
                (lba as int, PS as int / BS as int),
            ) && states.last().cached() == Some(lba)
        },
    decreases seeks.len(),
{
    let n = seeks.len();
    if n > 0 {
        let prev = states.drop_last();
        assert(step_run(
            prev,
            seeks.drop_last(),
            froms.drop_last(),
            seeked.drop_last(),
            befores.drop_last(),
            afters.drop_last(),
            counts.drop_last(),
        )) by {
            assert forall|i: int| 0 <= i < n - 1 implies if #[trigger] seeks.drop_last()[i] {
                seek_spec(prev[i], prev[i + 1], froms.drop_last()[i], seeked.drop_last()[i])
            } else {
                read_spec(
                    prev[i],
                    prev[i + 1],
                    befores.drop_last()[i],
                    afters.drop_last()[i],
                    Ok::<usize, ErrorKind>(counts.drop_last()[i]),
                )
            } by {
                assert(seeks[i] == seeks.drop_last()[i]);
            }
        }
        assert forall|i: int| 0 <= i < n - 1 && !seeks.drop_last()[i] implies page_lba(
            #[trigger] prev[i].pos(),
            BS as int,
            PS as int,
        ) == lba by {
            assert(seeks[i] == seeks.drop_last()[i]);
            assert(page_lba(states[i].pos(), BS as int, PS as int) == lba);
        }
        lemma_one_request_per_page(
            prev,
            seeks.drop_last(),
            froms.drop_last(),
            seeked.drop_last(),
            befores.drop_last(),
            afters.drop_last(),
            counts.drop_last(),
            lba,
        );
        let k = n - 1;
        assert(seeks[k] ==> seek_spec(states[k], states[k + 1], froms[k], seeked[k]));
        if !seeks[k] {
            assert(page_lba(states[k].pos(), BS as int, PS as int) == lba);
            assert(read_spec(
                states[k],
                states[k + 1],
                befores[k],
                afters[k],
                Ok::<usize, ErrorKind>(counts[k]),
            ));
        }
    }
}

/// Seeks compose: a seek to `Start(a)` and then a seek by `Current(b)`
/// leave the stream at `a + b`, when both positions can be addressed.
pub proof fn lemma_seek_composes<const BS: usize, const PS: usize, IO: BlockIo<BS>>(
    s0: BufferedIo<BS, PS, IO>,
    s1: BufferedIo<BS, PS, IO>,
    s2: BufferedIo<BS, PS, IO>,
    a: u64,
    b: i64,
    r1: Result<u64, ErrorKind>,
    r2: Result<u64, ErrorKind>,
)
    requires
        seek_spec(s0, s1, SeekFrom::Start(a), r1),
        seek_spec(s1, s2, SeekFrom::Current(b), r2),
        a <= usize::MAX,
        0 <= a + b <= usize::MAX,
    ensures
        s2.pos() == a + b,
        r2 == Ok::<u64, ErrorKind>((a + b) as u64),
{
}

} // verus!
