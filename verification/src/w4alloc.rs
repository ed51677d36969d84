//! The chunk headers of the WASM-4 heap allocator.
//!
//! The heap is a ring of chunks in the 64 KiB address space. A chunk's header holds the address
//! of the next chunk, whose two low bits hold the chunk's status, and the address of the
//! previous chunk; the chunk's body follows its header and ends where the next chunk starts.
//! Addresses are plain `u16` values here.
use vstd::prelude::*;

verus! {

/// The header of a chunk.
#[derive(Clone, Copy, Debug, PartialEq, Eq, Structural)]
pub struct Chunk {
    pub next_with_status: u16,
    pub prev: u16,
}

/// The size of a chunk header, in bytes.
pub const CHUNK_HEADER_SIZE: usize = 4;

/// The address of the chunk after the one with header `c`.
pub open spec fn next_address(c: Chunk) -> u16 {
    c.next_with_status & !0x3u16
}

proof fn lemma_round_down(x: usize, m: usize)
    by (bit_vector)
    ensures
        x & !m == x - (x & m),
        x & m <= m,
{
}

impl Chunk {
    /// Whether the chunk is in use.
    pub fn is_used(&self) -> (out: bool)
        ensures
            out == (self.next_with_status & 0x3 != 0),
    {
        self.next_with_status & 0x3 != 0
    }

    /// Marks the chunk as used or free, keeping its links.
    pub fn set_used(&mut self, used: bool)
        ensures
            final(self).prev == old(self).prev,
            final(self).next_with_status == if used {
                old(self).next_with_status | 1
            } else {
                old(self).next_with_status & !1u16
            },
    {
        if used {
            self.next_with_status = self.next_with_status | 1;
        } else {
            self.next_with_status = self.next_with_status & !1u16;
        }
    }

    /// The size of the body of the chunk at `address`: the bytes from the end of its header to
    /// the next chunk.
    pub fn size(&self, address: u16) -> (out: usize)
        requires
            next_address(*self) >= address + CHUNK_HEADER_SIZE,
        ensures
            out == next_address(*self) - address - CHUNK_HEADER_SIZE,
    {
        ((self.next_with_status & !0x3u16) - address) as usize - CHUNK_HEADER_SIZE
    }

    /// The address of the body of the chunk at `address`.
    pub fn body(address: u16) -> (out: usize)
        ensures
            out == address + CHUNK_HEADER_SIZE,
    {
        address as usize + CHUNK_HEADER_SIZE
    }

    /// How far from `address`, the chunk's own address, a body aligned to `align` can start:
    /// the end of the header rounded up to a multiple of `align`, a power of two.
    pub fn calc_alignment_offset(&self, address: u16, align: usize) -> (out: usize)
        requires
            align >= 1,
            address + CHUNK_HEADER_SIZE + align - 1 <= usize::MAX,
        ensures
            out == ((address + CHUNK_HEADER_SIZE + (align - 1)) as usize & !((align - 1) as usize)) - address,
            CHUNK_HEADER_SIZE <= out <= CHUNK_HEADER_SIZE + align - 1,
    {
        let x = address as usize + CHUNK_HEADER_SIZE + (align - 1);
        proof {
            lemma_round_down(x, (align - 1) as usize);
        }
        let aligned_addr = x & !(align - 1);
        aligned_addr - address as usize
    }

    /// Whether the chunk at `address` is free and can hold `size` bytes aligned to `align`,
    /// both multiples of 4: the aligned body ends before the next chunk.
    pub fn can_hold_layout(&self, address: u16, size: usize, align: usize) -> (out: bool)
        requires
            size & 0x3 == 0,
            align & 0x3 == 0,
            align >= 1,
            address + CHUNK_HEADER_SIZE + align - 1 + size <= usize::MAX,
        ensures
            out == (self.next_with_status & 0x3 == 0 && self.next_with_status as usize >= address
                + ((address + CHUNK_HEADER_SIZE + (align - 1)) as usize & !((align - 1) as usize)) - address + size),
    {
        if self.is_used() {
            return false;
        }
        let aligned_addr = address as usize + self.calc_alignment_offset(address, align);
        self.next_with_status as usize >= aligned_addr + size
    }
}

/// The two chunks a fresh heap starts with, between `heap_base` and `heap_end`: a free chunk at
/// the first 4-aligned address, reaching to a permanently used chunk of size 0 at the last
/// 4-aligned address that leaves room for a header, which closes the ring (chunks do not store
/// their size, so the ring needs a chunk at the end). Returns the address and header of each.
pub fn initial_heap(heap_base: usize, heap_end: usize) -> (out: (u16, Chunk, u16, Chunk))
    requires
        heap_base + 3 <= usize::MAX,
        heap_end >= CHUNK_HEADER_SIZE,
    ensures
        out.0 == ((heap_base + 3) as usize & !0x3usize) as u16,
        out.2 == ((heap_end - CHUNK_HEADER_SIZE) as usize & !0x3usize) as u16,
        out.1 == (Chunk { next_with_status: out.2, prev: out.2 }),
        out.3 == (Chunk { next_with_status: out.0 | 1, prev: out.0 }),
{
    let start = ((heap_base + 3) & !0x3usize) as u16;
    let terminator = ((heap_end - CHUNK_HEADER_SIZE) & !0x3usize) as u16;
    (start, Chunk { next_with_status: terminator, prev: terminator }, terminator, Chunk {
        next_with_status: start | 1,
        prev: start,
    })
}

} // verus!
