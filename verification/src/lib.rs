//! A segregated free-list memory allocator, verified end to end.
//!
//! The allocator serves the four classic operations — `malloc`, `calloc`,
//! `realloc`, `free` — from a bin table of singly linked free chains, one
//! chain per 8-byte size class up to a 512-byte ceiling. Small requests are
//! rounded up to their class and recycled through the chains; a drained
//! class is topped up by extending the data segment; requests above the
//! ceiling get an anonymous mapping of their own, released synchronously on
//! `free`. Every block is preceded by a fixed-size header recording its
//! usable size and its origin, so that `free` can recover everything it
//! needs from the block address alone.
//!
//! The process address space is part of the allocator value itself: the
//! data segment and the mapping space are byte vectors, and the header
//! table stands for the header words that sit in front of every block.
//! This keeps the whole engine — bootstrap, classification, growth,
//! carving, recycling and the byte-exact copy and zeroing semantics —
//! inside verified code, with no trusted primitives at all.

use vstd::prelude::*;

mod header;
mod state;
mod sys;
mod growth;
mod api;
mod laws;

pub use api::get_header;
pub use api::malloc_succeeds;
pub use laws::lemma_lifo_reuse;
pub use laws::lemma_bootstrap_once;
pub use laws::lemma_blocks_disjoint;
pub use laws::lemma_path_boundary;

pub use header::Header;
pub use header::Origin;
pub use state::Allocator;

verus! {

/// Every returned block is aligned to this many bytes, and small size
/// classes advance in steps of it.
pub const ALIGN: usize = 8;

/// The small-allocation ceiling: the largest usable size served from the
/// bin table. Anything larger takes the mapping path.
pub const MAX_BYTE: usize = 512;

/// Byte budget that seeds each size class at bootstrap.
pub const INIT_LIST_SIZE: usize = 512;

/// Byte budget of each later top-up of a drained size class.
pub const ADD_LIST_SIZE: usize = 512;

/// Number of entries in the bin table; class 0 is never used.
pub const NUM_LIST: usize = MAX_BYTE / ALIGN + 1;

/// Size of the header that precedes every block: one word each for the
/// usable size, the origin tag and the free-chain link.
pub const HEADER_SIZE: usize = 24;

/// First address of the mapping space. The data segment lives below it and
/// the break may never reach it, so the two can never collide.
pub const MAP_BASE: usize = 0x4000_0000;

/// A size rounded up to the next multiple of the alignment.
pub open spec fn align_up(n: int) -> int {
    ((n + ALIGN - 1) / (ALIGN as int)) * (ALIGN as int)
}

/// The size class serving a rounded size: its index in the bin table.
pub open spec fn class_of(n: int) -> int {
    align_up(n) / (ALIGN as int)
}

/// A run of `n` zero bytes.
pub open spec fn zeros(n: int) -> Seq<u8> {
    Seq::new(n as nat, |i: int| 0u8)
}

/// Rounding to the alignment moves a size up by less than one step and
/// lands on a multiple of it.
pub proof fn lemma_align_up(n: int)
    requires
        0 <= n,
    ensures
        n <= align_up(n) < n + 8,
        align_up(n) % 8 == 0,
{
    assert(n <= ((n + 7) / 8) * 8 < n + 8) by (nonlinear_arith)
        requires n >= 0;
    assert((((n + 7) / 8) * 8) % 8 == 0) by (nonlinear_arith);
}

/// Rounds a requested size up to the nearest multiple of the alignment.
pub fn get_align(size: usize) -> (r: usize)
    requires
        size + ALIGN - 1 <= usize::MAX,
    ensures
        r == align_up(size as int),
        size <= r < size + ALIGN,
        r % 8 == 0,
{
    let r = (size + (ALIGN - 1)) / ALIGN * ALIGN;
    proof {
        lemma_align_up(size as int);
    }
    r
}

} // verus!
