//! A contiguous byte region addressed by absolute addresses.
//!
//! The region is the only backing store of the allocators. Pointer-sized
//! words are stored as eight little-endian bytes and may start at any
//! address inside the region.

use vstd::prelude::*;

verus! {

/// Number of bytes of a pointer-sized word as stored in a region.
pub const WORD: usize = 8;

/// The word encoded by eight bytes, least significant first.
#[verifier::opaque]
pub open spec fn word_of(b0: u8, b1: u8, b2: u8, b3: u8, b4: u8, b5: u8, b6: u8, b7: u8) -> usize {
    (b0 as int + b1 as int * 0x100 + b2 as int * 0x1_0000 + b3 as int * 0x100_0000 + b4 as int
        * 0x1_0000_0000 + b5 as int * 0x100_0000_0000 + b6 as int * 0x1_0000_0000_0000 + b7 as int
        * 0x100_0000_0000_0000) as usize
}

/// The `k`-th least significant byte of `v`.
#[verifier::opaque]
pub open spec fn byte_of(v: usize, k: int) -> u8 {
    if k == 0 {
        (v as int % 0x100) as u8
    } else if k == 1 {
        (v as int / 0x100 % 0x100) as u8
    } else if k == 2 {
        (v as int / 0x1_0000 % 0x100) as u8
    } else if k == 3 {
        (v as int / 0x100_0000 % 0x100) as u8
    } else if k == 4 {
        (v as int / 0x1_0000_0000 % 0x100) as u8
    } else if k == 5 {
        (v as int / 0x100_0000_0000 % 0x100) as u8
    } else if k == 6 {
        (v as int / 0x1_0000_0000_0000 % 0x100) as u8
    } else {
        (v as int / 0x100_0000_0000_0000 % 0x100) as u8
    }
}

/// Decoding the eight bytes of a word gives the word back.
pub proof fn lemma_word_roundtrip(v: usize)
    ensures
        word_of(
            byte_of(v, 0),
            byte_of(v, 1),
            byte_of(v, 2),
            byte_of(v, 3),
            byte_of(v, 4),
            byte_of(v, 5),
            byte_of(v, 6),
            byte_of(v, 7),
        ) == v,
{
    reveal(word_of);
    reveal(byte_of);
    let x = v as int;
    assert(x < 0x1_0000_0000_0000_0000);
    let q1 = x / 0x100;
    let q2 = x / 0x1_0000;
    let q3 = x / 0x100_0000;
    let q4 = x / 0x1_0000_0000;
    let q5 = x / 0x100_0000_0000;
    let q6 = x / 0x1_0000_0000_0000;
    let q7 = x / 0x100_0000_0000_0000;
    assert(x == x % 0x100 + 0x100 * q1);
    assert(q2 == q1 / 0x100);
    assert(q3 == q2 / 0x100);
    assert(q4 == q3 / 0x100);
    assert(q5 == q4 / 0x100);
    assert(q6 == q5 / 0x100);
    assert(q7 == q6 / 0x100);
    assert(q7 < 0x100);
}

/// A byte region `[base, base + len)`.
pub struct Region {
    base: usize,
    bytes: Vec<u8>,
}

impl Region {
    /// First address of the region.
    pub closed spec fn base(&self) -> int {
        self.base as int
    }

    /// Number of bytes in the region.
    pub closed spec fn len(&self) -> int {
        self.bytes@.len() as int
    }

    /// The region ends at or below the highest address.
    pub open spec fn wf(&self) -> bool {
        0 <= self.base() && 0 <= self.len() && self.base() + self.len() <= usize::MAX
    }

    /// `[addr, addr + n)` lies inside the region.
    pub open spec fn contains(&self, addr: int, n: int) -> bool {
        self.wf() && self.base() <= addr && 0 <= n && addr + n <= self.base() + self.len()
    }

    /// The byte stored at `addr`.
    pub closed spec fn byte_at(&self, addr: int) -> u8 {
        if self.base <= addr < self.base + self.bytes@.len() {
            self.bytes@[addr - self.base]
        } else {
            0
        }
    }

    /// The word stored in the eight bytes from `addr`.
    pub closed spec fn word_at(&self, addr: int) -> usize {
        word_of(
            self.byte_at(addr),
            self.byte_at(addr + 1),
            self.byte_at(addr + 2),
            self.byte_at(addr + 3),
            self.byte_at(addr + 4),
            self.byte_at(addr + 5),
            self.byte_at(addr + 6),
            self.byte_at(addr + 7),
        )
    }

    /// Same extent as `other`, and the same bytes, hence the same words,
    /// outside `[lo, hi)`; with `hi <= lo` the interval is empty.
    pub open spec fn same_except(&self, other: &Region, lo: int, hi: int) -> bool {
        &&& self.base() == other.base()
        &&& self.len() == other.len()
        &&& forall|a: int| !(lo <= a < hi) ==> #[trigger] self.byte_at(a) == other.byte_at(a)
        &&& forall|a: int|
            hi <= lo || a + 8 <= lo || hi <= a ==> #[trigger] self.word_at(a) == other.word_at(a)
    }

    /// Same extent as `other`, and the same bytes and words outside
    /// `[lo1, hi1)` and `[lo2, hi2)`; an interval with `hi <= lo` is empty.
    pub open spec fn same_outside(
        &self,
        other: &Region,
        lo1: int,
        hi1: int,
        lo2: int,
        hi2: int,
    ) -> bool {
        &&& self.base() == other.base()
        &&& self.len() == other.len()
        &&& forall|a: int|
            !(lo1 <= a < hi1) && !(lo2 <= a < hi2) ==> #[trigger] self.byte_at(a) == other.byte_at(
                a,
            )
        &&& forall|a: int|
            (hi1 <= lo1 || a + 8 <= lo1 || hi1 <= a) && (hi2 <= lo2 || a + 8 <= lo2 || hi2 <= a)
                ==> #[trigger] self.word_at(a) == other.word_at(a)
    }

    /// A region without bytes at address zero.
    pub fn empty() -> (r: Region)
        ensures
            r.wf(),
            r.base() == 0,
            r.len() == 0,
    {
        Region { base: 0, bytes: Vec::new() }
    }

    /// A zero-filled region of `len` bytes starting at `base`.
    pub fn new(base: usize, len: usize) -> (r: Region)
        requires
            base + len <= usize::MAX,
        ensures
            r.wf(),
            r.base() == base,
            r.len() == len,
            forall|a: int| base <= a < base + len ==> #[trigger] r.byte_at(a) == 0,
    {
        let bytes: Vec<u8> = vec![0u8; len];
        Region { base, bytes }
    }

    /// First address of the region.
    pub fn start(&self) -> (r: usize)
        ensures
            r == self.base(),
    {
        self.base
    }

    /// Number of bytes in the region.
    pub fn size(&self) -> (r: usize)
        requires
            self.wf(),
        ensures
            r == self.len(),
    {
        self.bytes.len()
    }

    /// Reads the byte at `addr`.
    pub fn read_byte(&self, addr: usize) -> (b: u8)
        requires
            self.contains(addr as int, 1),
        ensures
            b == self.byte_at(addr as int),
    {
        self.bytes[addr - self.base]
    }

    /// Stores `b` at `addr`.
    pub fn write_byte(&mut self, addr: usize, b: u8)
        requires
            old(self).contains(addr as int, 1),
        ensures
            final(self).same_except(old(self), addr as int, addr + 1),
            final(self).byte_at(addr as int) == b,
    {
        let off: usize = addr - self.base;
        self.bytes.set(off, b);
    }

    /// Reads the word stored from `addr`.
    pub fn read_word(&self, addr: usize) -> (w: usize)
        requires
            self.contains(addr as int, WORD as int),
        ensures
            w == self.word_at(addr as int),
    {
        let off: usize = addr - self.base;
        let n: usize = self.bytes.len();
        let b0: u64 = self.bytes[off] as u64;
        let b1: u64 = self.bytes[off + 1] as u64;
        let b2: u64 = self.bytes[off + 2] as u64;
        let b3: u64 = self.bytes[off + 3] as u64;
        let b4: u64 = self.bytes[off + 4] as u64;
        let b5: u64 = self.bytes[off + 5] as u64;
        let b6: u64 = self.bytes[off + 6] as u64;
        let b7: u64 = self.bytes[off + 7] as u64;
        let w: u64 = b0 + b1 * 0x100 + b2 * 0x1_0000 + b3 * 0x100_0000 + b4 * 0x1_0000_0000 + b5
            * 0x100_0000_0000 + b6 * 0x1_0000_0000_0000 + b7 * 0x100_0000_0000_0000;
        proof {
            reveal(word_of);
        }
        #[verifier::truncate]
        (w as usize)
    }

    /// Stores `val` in the eight bytes from `addr`.
    pub fn write_word(&mut self, addr: usize, val: usize)
        requires
            old(self).contains(addr as int, WORD as int),
        ensures
            final(self).same_except(old(self), addr as int, addr + WORD),
            final(self).word_at(addr as int) == val,
    {
        let v: u64 = val as u64;
        proof {
            reveal(byte_of);
        }
        self.write_byte(addr, (v % 0x100) as u8);
        self.write_byte(addr + 1, (v / 0x100 % 0x100) as u8);
        self.write_byte(addr + 2, (v / 0x1_0000 % 0x100) as u8);
        self.write_byte(addr + 3, (v / 0x100_0000 % 0x100) as u8);
        let ghost mid = *self;
        assert(mid.same_except(old(self), addr as int, addr + 4));
        self.write_byte(addr + 4, (v / 0x1_0000_0000 % 0x100) as u8);
        self.write_byte(addr + 5, (v / 0x100_0000_0000 % 0x100) as u8);
        self.write_byte(addr + 6, (v / 0x1_0000_0000_0000 % 0x100) as u8);
        self.write_byte(addr + 7, (v / 0x100_0000_0000_0000 % 0x100) as u8);
        assert(self.same_except(&mid, addr + 4, addr + 8));
        proof {
            assert(self.byte_at(addr + 0) == byte_of(val, 0));
            assert(self.byte_at(addr + 1) == byte_of(val, 1));
            assert(self.byte_at(addr + 2) == byte_of(val, 2));
            assert(self.byte_at(addr + 3) == byte_of(val, 3));
            assert(self.byte_at(addr + 4) == byte_of(val, 4));
            assert(self.byte_at(addr + 5) == byte_of(val, 5));
            assert(self.byte_at(addr + 6) == byte_of(val, 6));
            assert(self.byte_at(addr + 7) == byte_of(val, 7));
            lemma_word_roundtrip(val);
        }
    }
}

} // verus!
