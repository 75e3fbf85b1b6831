//! The flash region that holds the subscription pages, and the tagged
//! record store on top of it.
//!
//! The region is a run of `MAX_SUBS` pages of `PAGE_SIZE` bytes starting
//! at `BASE_ADDRESS`. It is erased a page at a time (every byte becomes
//! `0xFF`) and written in aligned 16-byte blocks; a write may only clear
//! bits, so a block must be erased before it is written again.

use crate::codec::{append_bytes, le_word, word_from_le, word_of, word_to_le};
use vstd::prelude::*;

verus! {

pub const BASE_ADDRESS: u32 = 0x1006_2000;

pub const PAGE_SIZE: u32 = 0x2000;

/// Number of subscription pages.
pub const MAX_SUBS: usize = 8;

/// Size in bytes of the whole region.
pub const REGION_SIZE: u32 = 0x10000;

/// Size in bytes of one write or read block.
pub const BLOCK_SIZE: u32 = 16;

#[derive(Clone, Copy, Debug, PartialEq, Eq, Structural)]
pub enum FlashError {
    /// The address is not block-aligned or lies outside the region.
    InvalidAddress,
    /// The write would set a bit that is clear: the block must be erased first.
    NeedsErase,
}

#[derive(Clone, Copy, Debug, PartialEq, Eq, Structural)]
pub enum FlashManagerError {
    FlashError(FlashError),
    /// A page does not start with the magic its reader expects.
    MagicMismatch,
}

impl From<FlashError> for FlashManagerError {
    fn from(err: FlashError) -> (r: FlashManagerError) {
        FlashManagerError::FlashError(err)
    }
}

impl vstd::std_specs::convert::FromSpecImpl<FlashError> for FlashManagerError {
    open spec fn obeys_from_spec() -> bool {
        true
    }

    open spec fn from_spec(err: FlashError) -> FlashManagerError {
        FlashManagerError::FlashError(err)
    }
}

/// A write of `new` over `old` only clears bits.
pub open spec fn fits(old: u8, new: u8) -> bool {
    old & new == new
}

/// `mem` with the bytes from `off` on replaced by `data`.
pub open spec fn update_range(mem: Seq<u8>, off: int, data: Seq<u8>) -> Seq<u8> {
    Seq::new(mem.len(), |i: int| if off <= i < off + data.len() { data[i - off] } else { mem[i] })
}

/// `len` bytes from `addr` on lie in the region, and `addr` is block-aligned.
pub open spec fn range_ok(addr: u32, len: int) -> bool {
    &&& addr % 16 == 0
    &&& BASE_ADDRESS <= addr
    &&& addr - BASE_ADDRESS + len <= REGION_SIZE
}

pub open spec fn offset(addr: u32) -> int {
    addr - BASE_ADDRESS
}

/// Every byte of `data` can be written over `mem` from `off` on.
pub open spec fn all_fit(mem: Seq<u8>, off: int, data: Seq<u8>) -> bool {
    forall|j: int| 0 <= j < data.len() ==> fits(#[trigger] mem[off + j], data[j])
}

/// A write of `l` from `off` on stopped at block `b`: the blocks before it
/// were written, block `b` would set a cleared bit, and nothing else changed.
pub open spec fn stopped_at(old: Seq<u8>, new: Seq<u8>, off: int, l: Seq<u8>, b: int) -> bool {
    &&& 0 <= b
    &&& 16 * b + 16 <= l.len()
    &&& all_fit(old, off, l.subrange(0, 16 * b))
    &&& !all_fit(old, off + 16 * b, l.subrange(16 * b, 16 * b + 16))
    &&& new == update_range(old, off, l.subrange(0, 16 * b))
}

/// A length rounded up to whole blocks.
pub open spec fn padded_len(n: int) -> int {
    ((n + 15) / 16) * 16
}

/// What `write_data` lays down: the magic, the data, then zeros to a block boundary.
pub open spec fn tagged_bytes(magic: u32, data: Seq<u8>) -> Seq<u8> {
    let body = le_word(magic) + data;
    body + Seq::new((padded_len(body.len() as int) - body.len()) as nat, |i: int| 0u8)
}

/// The start of the page that holds offset `off`.
pub open spec fn page_start(off: int) -> int {
    (off / PAGE_SIZE as int) * PAGE_SIZE as int
}

pub open spec fn erased_page(mem: Seq<u8>, off: int) -> Seq<u8> {
    Seq::new(
        mem.len(),
        |i: int|
            if page_start(off) <= i < page_start(off) + PAGE_SIZE {
                0xFFu8
            } else {
                mem[i]
            },
    )
}

pub proof fn lemma_erased_fits(new: u8)
    ensures
        fits(0xFFu8, new),
{
    assert(0xFFu8 & new == new) by (bit_vector);
}

pub struct FlashManager {
    mem: Vec<u8>,
}

impl View for FlashManager {
    type V = Seq<u8>;

    closed spec fn view(&self) -> Seq<u8> {
        self.mem@
    }
}

impl FlashManager {
    pub open spec fn wf(&self) -> bool {
        self@.len() == REGION_SIZE
    }

    /// A freshly erased region.
    pub fn new() -> (r: FlashManager)
        ensures
            r.wf(),
            forall|i: int| 0 <= i < REGION_SIZE ==> r@[i] == 0xFFu8,
    {
        let mut mem: Vec<u8> = Vec::new();
        let mut i: u32 = 0;
        while i < REGION_SIZE
            invariant
                i <= REGION_SIZE,
                mem@.len() == i,
                forall|j: int| 0 <= j < i ==> mem@[j] == 0xFFu8,
            decreases REGION_SIZE - i,
        {
            mem.push(0xFF);
            i = i + 1;
        }
        FlashManager { mem }
    }

    /// A region holding `image`, which must be exactly the region's size.
    pub fn from_image(image: Vec<u8>) -> (r: Option<FlashManager>)
        ensures
            r is Some <==> image@.len() == REGION_SIZE,
            r matches Some(f) ==> f.wf() && f@ == image@,
    {
        if image.len() == REGION_SIZE as usize {
            Some(FlashManager { mem: image })
        } else {
            None
        }
    }

    /// The bytes of the whole region.
    pub fn image(&self) -> (r: &[u8])
        ensures
            r@ == self@,
    {
        self.mem.as_slice()
    }

    /// Reads the aligned 16-byte block at `addr`.
    pub fn read_128(&self, addr: u32) -> (r: Result<[u8; 16], FlashError>)
        requires
            self.wf(),
        ensures
            r is Ok <==> range_ok(addr, 16),
            r matches Ok(b) ==> b@ == self@.subrange(offset(addr), offset(addr) + 16),
            r matches Err(e) ==> e == FlashError::InvalidAddress,
    {
        if addr % 16 != 0 || addr < BASE_ADDRESS || addr - BASE_ADDRESS > REGION_SIZE - 16 {
            return Err(FlashError::InvalidAddress);
        }
        let off = (addr - BASE_ADDRESS) as usize;
        let mut b = [0u8; 16];
        let mut i: usize = 0;
        while i < 16
            invariant
                i <= 16,
                off + 16 <= self@.len(),
                self.wf(),
                forall|j: int| 0 <= j < i ==> b@[j] == self@[off + j],
            decreases 16 - i,
        {
            b[i] = self.mem[off + i];
            i = i + 1;
        }
        assert(b@ =~= self@.subrange(off as int, off + 16));
        Ok(b)
    }

    /// Writes the aligned 16-byte block at `addr`; fails, changing nothing,
    /// where a byte would need a cleared bit set.
    pub fn write_128(&mut self, addr: u32, data: &[u8; 16]) -> (r: Result<(), FlashError>)
        requires
            old(self).wf(),
        ensures
            final(self).wf(),
            r is Ok <==> range_ok(addr, 16) && all_fit(old(self)@, offset(addr), data@),
            r is Ok ==> final(self)@ == update_range(old(self)@, offset(addr), data@),
            r is Err ==> final(self)@ == old(self)@,
            r == Err::<(), FlashError>(FlashError::InvalidAddress) <==> !range_ok(addr, 16),
            r == Err::<(), FlashError>(FlashError::NeedsErase) <==> range_ok(addr, 16) && !all_fit(
                old(self)@,
                offset(addr),
                data@,
            ),
    {
        if addr % 16 != 0 || addr < BASE_ADDRESS || addr - BASE_ADDRESS > REGION_SIZE - 16 {
            return Err(FlashError::InvalidAddress);
        }
        let off = (addr - BASE_ADDRESS) as usize;
        let mut i: usize = 0;
        while i < 16
            invariant
                i <= 16,
                off + 16 <= self@.len(),
                self.wf(),
                off == offset(addr),
                range_ok(addr, 16),
                self@ == old(self)@,
                forall|j: int| 0 <= j < i ==> fits(#[trigger] self@[off + j], data@[j]),
            decreases 16 - i,
        {
            if self.mem[off + i] & data[i] != data[i] {
                return Err(FlashError::NeedsErase);
            }
            i = i + 1;
        }
        let ghost before = self@;
        let mut i: usize = 0;
        while i < 16
            invariant
                i <= 16,
                off + 16 <= self@.len(),
                self.wf(),
                self@ == update_range(before, off as int, data@.subrange(0, i as int)),
            decreases 16 - i,
        {
            self.mem.set(off + i, data[i]);
            i = i + 1;
            assert(self@ =~= update_range(before, off as int, data@.subrange(0, i as int)));
        }
        assert(data@.subrange(0, 16) =~= data@);
        Ok(())
    }

    /// Erases the page that holds `addr`.
    pub fn erase_page(&mut self, addr: u32) -> (r: Result<(), FlashError>)
        requires
            old(self).wf(),
        ensures
            final(self).wf(),
            r is Ok <==> BASE_ADDRESS <= addr < BASE_ADDRESS + REGION_SIZE,
            r is Ok ==> final(self)@ == erased_page(old(self)@, offset(addr)),
            r is Err ==> final(self)@ == old(self)@ && r == Err::<(), FlashError>(
                FlashError::InvalidAddress,
            ),
    {
        if addr < BASE_ADDRESS || addr - BASE_ADDRESS >= REGION_SIZE {
            return Err(FlashError::InvalidAddress);
        }
        let start = ((addr - BASE_ADDRESS) / PAGE_SIZE * PAGE_SIZE) as usize;
        let ghost before = self@;
        assert(start + PAGE_SIZE <= REGION_SIZE);
        let mut i: usize = 0;
        while i < PAGE_SIZE as usize
            invariant
                i <= PAGE_SIZE,
                start == page_start(offset(addr)),
                start + PAGE_SIZE <= REGION_SIZE,
                self.wf(),
                before.len() == REGION_SIZE,
                forall|j: int|
                    0 <= j < REGION_SIZE ==> #[trigger] self@[j] == if start <= j < start + i {
                        0xFFu8
                    } else {
                        before[j]
                    },
            decreases PAGE_SIZE - i,
        {
            self.mem.set(start + i, 0xFF);
            i = i + 1;
        }
        assert(self@ =~= erased_page(before, offset(addr)));
        Ok(())
    }

    /// Writes `magic` (little-endian) followed by `data`, zero-padded to a
    /// whole block, from `start_address` on. The blocks must have been erased.
    pub fn write_data(&mut self, start_address: u32, magic: u32, data: &[u8]) -> (r: Result<
        (),
        FlashManagerError,
    >)
        requires
            old(self).wf(),
            data@.len() <= REGION_SIZE,
        ensures
            final(self).wf(),
            r == Err::<(), FlashManagerError>(
                FlashManagerError::FlashError(FlashError::InvalidAddress),
            ) <==> !range_ok(start_address, tagged_bytes(magic, data@).len() as int),
            r is Ok <==> range_ok(start_address, tagged_bytes(magic, data@).len() as int) && all_fit(
                old(self)@,
                offset(start_address),
                tagged_bytes(magic, data@),
            ),
            r is Ok ==> final(self)@ == update_range(
                old(self)@,
                offset(start_address),
                tagged_bytes(magic, data@),
            ),
            r is Err ==> r == Err::<(), FlashManagerError>(
                FlashManagerError::FlashError(FlashError::InvalidAddress),
            ) || r == Err::<(), FlashManagerError>(
                FlashManagerError::FlashError(FlashError::NeedsErase),
            ),
            r == Err::<(), FlashManagerError>(
                FlashManagerError::FlashError(FlashError::InvalidAddress),
            ) ==> final(self)@ == old(self)@,
            r == Err::<(), FlashManagerError>(FlashManagerError::FlashError(FlashError::NeedsErase))
                ==> exists|b: int|
                #[trigger] stopped_at(
                    old(self)@,
                    final(self)@,
                    offset(start_address),
                    tagged_bytes(magic, data@),
                    b,
                ),
    {
        let ghost l = tagged_bytes(magic, data@);
        proof {
            crate::codec::lemma_word_round_trip(magic);
        }
        let total = 4 + data.len();
        let chunks = (total + 15) / 16;
        let mut buf = word_to_le(magic);
        append_bytes(&mut buf, data);
        let mut k: usize = total;
        assert(chunks * 16 <= REGION_SIZE + 4 + 15);
        while k < chunks * 16
            invariant
                total == 4 + data@.len(),
                chunks == (total + 15) / 16,
                chunks * 16 <= REGION_SIZE + 4 + 15,
                total <= k <= chunks * 16,
                buf@ == le_word(magic) + data@ + Seq::new(
                    (k - total) as nat,
                    |i: int| 0u8,
                ),
            decreases chunks * 16 - k,
        {
            buf.push(0);
            k = k + 1;
            assert(buf@ =~= le_word(magic) + data@ + Seq::new(
                (k - total) as nat,
                |i: int| 0u8,
            ));
        }
        assert(buf@ =~= l);
        if chunks * 16 > REGION_SIZE as usize || start_address % 16 != 0 || start_address
            < BASE_ADDRESS || start_address - BASE_ADDRESS > REGION_SIZE - (chunks * 16) as u32 {
            return Err(FlashManagerError::FlashError(FlashError::InvalidAddress));
        }
        let off = (start_address - BASE_ADDRESS) as usize;
        let ghost before = self@;
        let mut i: usize = 0;
        while i < chunks
            invariant
                i <= chunks,
                chunks * 16 == l.len(),
                l == tagged_bytes(magic, data@),
                buf@ == l,
                off == offset(start_address),
                range_ok(start_address, l.len() as int),
                before == old(self)@,
                self.wf(),
                self@ == update_range(before, off as int, l.subrange(0, 16 * i)),
                all_fit(before, off as int, l.subrange(0, 16 * i)),
            decreases chunks - i,
        {
            let block: [u8; 16] = crate::codec::to_array(&buf.as_slice()[16 * i..16 * i + 16]);
            let ghost cur = self@;
            assert(range_ok((start_address + 16 * i) as u32, 16));
            let res = self.write_128(start_address + (16 * i) as u32, &block);
            match res {
                Ok(()) => {},
                Err(e) => {
                    proof {
                        let a2 = (start_address + 16 * i) as u32;
                        assert(offset(a2) == off + 16 * i);
                        if all_fit(before, off as int, l) {
                            assert forall|j: int| 0 <= j < 16 implies fits(
                                #[trigger] cur[offset(a2) + j],
                                block@[j],
                            ) by {
                                assert(before[off + (16 * i + j)] == cur[offset(a2) + j]);
                                assert(l[16 * i + j] == block@[j]);
                            }
                            assert(all_fit(cur, offset(a2), block@));
                            assert(false);
                        }
                        let lb = l.subrange(16 * i, 16 * i + 16);
                        assert(block@ =~= lb);
                        if all_fit(before, off + 16 * i, lb) {
                            assert forall|j: int| 0 <= j < 16 implies fits(
                                #[trigger] cur[offset(a2) + j],
                                block@[j],
                            ) by {
                                assert(before[off + 16 * i + j] == cur[offset(a2) + j]);
                            }
                            assert(all_fit(cur, offset(a2), block@));
                            assert(false);
                        }
                        assert(stopped_at(before, self@, off as int, l, i as int));
                    }
                    return Err(FlashManagerError::FlashError(e));
                },
            }
            proof {
                assert forall|j: int| 0 <= j < 16 * (i + 1) implies fits(
                    #[trigger] before[off as int + j],
                    l.subrange(0, 16 * (i + 1))[j],
                ) by {
                    if j >= 16 * i {
                        assert(cur[off + 16 * i + (j - 16 * i)] == before[off + j]);
                    } else {
                        assert(l.subrange(0, 16 * i)[j] == l[j]);
                    }
                }
                assert(self@ =~= update_range(before, off as int, l.subrange(0, 16 * (i + 1))));
            }
            i = i + 1;
        }
        assert(l.subrange(0, 16 * chunks as int) =~= l);
        Ok(())
    }

    /// Reads `len` bytes of a record written by `write_data` at
    /// `start_address`: the bytes that follow the 4-byte magic.
    pub fn read_data(&self, start_address: u32, len: usize) -> (r: Result<
        Vec<u8>,
        FlashManagerError,
    >)
        requires
            self.wf(),
            len <= REGION_SIZE,
        ensures
            r is Ok <==> range_ok(start_address, padded_len(4 + len)),
            r matches Ok(v) ==> v@ == self@.subrange(
                offset(start_address) + 4,
                offset(start_address) + 4 + len,
            ),
            r matches Err(e) ==> e == FlashManagerError::FlashError(FlashError::InvalidAddress),
    {
        let total = 4 + len;
        let chunks = (total + 15) / 16;
        if chunks * 16 > REGION_SIZE as usize || start_address % 16 != 0 || start_address
            < BASE_ADDRESS || start_address - BASE_ADDRESS > REGION_SIZE - (chunks * 16) as u32 {
            return Err(FlashManagerError::FlashError(FlashError::InvalidAddress));
        }
        let off = (start_address - BASE_ADDRESS) as usize;
        let mut buf: Vec<u8> = Vec::new();
        let mut i: usize = 0;
        while i < chunks
            invariant
                i <= chunks,
                chunks == (total + 15) / 16,
                total == 4 + len,
                off == offset(start_address),
                range_ok(start_address, chunks * 16),
                self.wf(),
                buf@ == self@.subrange(off as int, off + 16 * i),
            decreases chunks - i,
        {
            let res = self.read_128(start_address + (16 * i) as u32);
            match res {
                Ok(block) => {
                    append_bytes(&mut buf, block.as_slice());
                    assert(buf@ =~= self@.subrange(off as int, off + 16 * (i + 1)));
                },
                Err(e) => {
                    return Err(FlashManagerError::FlashError(e));
                },
            }
            i = i + 1;
        }
        let mut out: Vec<u8> = Vec::new();
        append_bytes(&mut out, &buf.as_slice()[4..total]);
        assert(out@ =~= self@.subrange(off + 4, off + 4 + len));
        Ok(out)
    }

    /// Erases the page that holds `start_address`.
    pub fn wipe_data(&mut self, start_address: u32) -> (r: Result<(), FlashManagerError>)
        requires
            old(self).wf(),
        ensures
            final(self).wf(),
            r is Ok <==> BASE_ADDRESS <= start_address < BASE_ADDRESS + REGION_SIZE,
            r is Ok ==> final(self)@ == erased_page(old(self)@, offset(start_address)),
            r is Err ==> final(self)@ == old(self)@ && r == Err::<(), FlashManagerError>(
                FlashManagerError::FlashError(FlashError::InvalidAddress),
            ),
    {
        match self.erase_page(start_address) {
            Ok(()) => Ok(()),
            Err(e) => Err(FlashManagerError::from(e)),
        }
    }

    /// The little-endian word at the start of the block at `start_address`.
    pub fn read_magic(&self, start_address: u32) -> (r: Result<u32, FlashError>)
        requires
            self.wf(),
        ensures
            r is Ok <==> range_ok(start_address, 16),
            r matches Ok(m) ==> m == word_of(
                self@.subrange(offset(start_address), offset(start_address) + 4),
            ),
            r matches Err(e) ==> e == FlashError::InvalidAddress,
    {
        let block = self.read_128(start_address)?;
        let m = word_from_le(&block.as_slice()[0..4]);
        assert(block@.subrange(0, 4) =~= self@.subrange(
            offset(start_address),
            offset(start_address) + 4,
        ));
        Ok(m)
    }
}

} // verus!
