//! The mutator's memory as the collector sees it: the code image with its
//! embedded reference maps, the stack and the globals region. Addresses are
//! byte addresses; words are eight bytes wide and word regions are aligned.

use crate::bitmap::byte_bit;
use vstd::prelude::*;

verus! {

/// A contiguous run of bytes that starts at address `base`.
#[derive(Clone, Debug, PartialEq, Eq)]
pub struct ByteRegion {
    pub base: u64,
    pub bytes: Vec<u8>,
}

/// A contiguous run of 8-byte words that starts at address `base`.
#[derive(Clone, Debug, PartialEq, Eq)]
pub struct WordRegion {
    pub base: u64,
    pub words: Vec<u64>,
}

/// Everything outside the heap that a collection reads.
#[derive(Clone, Debug, PartialEq, Eq)]
pub struct Memory {
    /// Machine code, with a reference map next to every call site.
    pub code: ByteRegion,
    /// The mutator's stack.
    pub stack: WordRegion,
    /// The global variables.
    pub globals: WordRegion,
}

/// The unsigned value of four bytes in little-endian order.
pub open spec fn le_u32(b0: u8, b1: u8, b2: u8, b3: u8) -> int {
    b0 + 0x100 * b1 + 0x1_0000 * b2 + 0x100_0000 * b3
}

/// The two's-complement reading of an unsigned 32-bit value.
pub open spec fn signed_32(u: int) -> int {
    if u >= 0x8000_0000 {
        u - 0x1_0000_0000
    } else {
        u
    }
}

impl ByteRegion {
    /// Whether the byte at `addr` belongs to the region.
    pub open spec fn contains(&self, addr: int) -> bool {
        self.base <= addr < self.base + self.bytes@.len() && addr <= u64::MAX
    }

    /// Whether the `count` bytes from `addr` on belong to the region.
    pub open spec fn contains_range(&self, addr: int, count: int) -> bool {
        &&& self.base <= addr
        &&& addr + count <= self.base + self.bytes@.len()
        &&& addr + count <= u64::MAX + 1
    }

    /// The byte at `addr`.
    pub open spec fn byte_at(&self, addr: int) -> u8 {
        self.bytes@[addr - self.base]
    }

    /// The signed 32-bit little-endian value that starts at `addr`.
    pub open spec fn i32_at(&self, addr: int) -> int {
        signed_32(
            le_u32(
                self.byte_at(addr),
                self.byte_at(addr + 1),
                self.byte_at(addr + 2),
                self.byte_at(addr + 3),
            ),
        )
    }

    /// Bit `k` of the packed bitmap that starts at `addr`.
    pub open spec fn bit_at(&self, addr: int, k: int) -> bool {
        byte_bit(self.byte_at(addr + k / 8), (k % 8) as u8)
    }

    /// Loads the byte at `addr`.
    pub fn read(&self, addr: u64) -> (byte: u8)
        requires
            self.contains(addr as int),
        ensures
            byte == self.byte_at(addr as int),
    {
        assert(self.bytes.len() == self.bytes@.len());
        self.bytes[(addr - self.base) as usize]
    }
}

impl WordRegion {
    /// Whether `addr` is the address of a word of the region.
    pub open spec fn contains(&self, addr: int) -> bool {
        &&& self.base <= addr <= u64::MAX
        &&& (addr - self.base) % 8 == 0
        &&& (addr - self.base) / 8 < self.words@.len()
    }

    /// The word at `addr`.
    pub open spec fn word_at(&self, addr: int) -> u64 {
        self.words@[(addr - self.base) / 8]
    }

    /// Loads the word at `addr`.
    pub fn load(&self, addr: u64) -> (word: u64)
        requires
            self.contains(addr as int),
        ensures
            word == self.word_at(addr as int),
    {
        assert(self.words.len() == self.words@.len());
        self.words[((addr - self.base) / 8) as usize]
    }

    /// Stores `value` into the word at `addr`.
    pub fn store(&mut self, addr: u64, value: u64)
        requires
            old(self).contains(addr as int),
        ensures
            final(self).base == old(self).base,
            final(self).words@ == old(self).words@.update((addr - old(self).base) / 8, value),
    {
        assert(self.words.len() == self.words@.len());
        let index: usize = ((addr - self.base) / 8) as usize;
        self.words[index] = value;
    }
}

/// Reads a little-endian signed 32-bit value from `region` at `addr`.
pub fn read_i32_le(region: &ByteRegion, addr: u64) -> (value: i32)
    requires
        region.contains_range(addr as int, 4),
    ensures
        value == region.i32_at(addr as int),
{
    assert(region.bytes.len() == region.bytes@.len());
    let start: usize = (addr - region.base) as usize;
    let b0: u32 = region.bytes[start] as u32;
    let b1: u32 = region.bytes[start + 1] as u32;
    let b2: u32 = region.bytes[start + 2] as u32;
    let b3: u32 = region.bytes[start + 3] as u32;
    let unsigned: u32 = b0 + 0x100 * b1 + 0x1_0000 * b2 + 0x100_0000 * b3;
    if unsigned >= 0x8000_0000 {
        (unsigned as i64 - 0x1_0000_0000) as i32
    } else {
        unsigned as i32
    }
}

/// Address of slot `index` of the frame at `frame`; `index` may be negative.
pub open spec fn slot_address(frame: int, index: int) -> int {
    frame + 8 * index
}

/// Computes the address of slot `index` of the frame at `frame`.
pub fn frame_slot(frame: u64, index: i32) -> (addr: u64)
    requires
        0 <= slot_address(frame as int, index as int) <= u64::MAX,
    ensures
        addr == slot_address(frame as int, index as int),
{
    (frame as i128 + 8 * (index as i128)) as u64
}

} // verus!
