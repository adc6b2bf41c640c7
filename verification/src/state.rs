use vstd::prelude::*;

verus! {

use std::collections::HashMap;
use crate::header::{Header, Origin};
use crate::{ALIGN, MAX_BYTE, NUM_LIST, HEADER_SIZE, MAP_BASE};

broadcast use vstd::std_specs::hash::group_hash_axioms;

/// The allocator together with the part of the process address space it
/// manages.
///
/// Addresses below `MAP_BASE` index into `heap`, the contiguous data
/// segment; the program break sits at `heap.len()` and may never pass
/// `heap_limit`, which models the resource bound that makes heap extension
/// fail. Addresses from `MAP_BASE` upward index into `arena`, where every
/// anonymous mapping ever made lies back to back; a mapping is carved at
/// the high end of `arena`, so distinct mappings never overlap.
///
/// `headers` stands for the header words written in front of every block,
/// keyed by the header's address. `bins` is the bin table: entry `c` holds
/// the free chain of class `c` — every free block of usable size
/// `c * ALIGN` — as a stack of header addresses, newest at the end. The
/// stack order stands for the intrusive `next` links that the header
/// words carry in memory: pushing and popping at the end is exactly the
/// LIFO push and pop at the head of such a chain.
pub struct Allocator {
    /// One-time bootstrap flag: false only before the first request.
    pub initialized: bool,
    /// Bytes of the data segment; address `a` is `heap[a]`.
    pub heap: Vec<u8>,
    /// The break may never pass this; extension past it fails.
    pub heap_limit: usize,
    /// Bytes of the mapping space; address `MAP_BASE + i` is `arena[i]`.
    pub arena: Vec<u8>,
    /// The bin table: one free chain per size class, newest entry last.
    pub bins: Vec<Vec<usize>>,
    /// The header preceding each block, by header address.
    pub headers: HashMap<usize, Header>,
    /// How many times bootstrap has run; never more than once.
    pub bootstrap_count: u64,
    /// How many times a drained size class has been topped up.
    pub growth_count: u64,
}

impl Allocator {
    /// The header address recovered from a block address.
    pub open spec fn hdr(p: usize) -> usize {
        (p - HEADER_SIZE) as usize
    }

    /// Whether a header is written at address `h`.
    pub open spec fn has_header(self, h: usize) -> bool {
        self.headers@.contains_key(h)
    }

    /// The header written at address `h`.
    pub open spec fn header_of(self, h: usize) -> Header {
        self.headers@[h]
    }

    /// Every header describes a region that lies inside the memory its
    /// origin says it came from.
    pub open spec fn header_wf(self, h: usize) -> bool {
        let hd = self.headers@[h];
        match hd.origin {
            Origin::Pool => {
                &&& ALIGN <= hd.size <= MAX_BYTE
                &&& hd.size % 8 == 0
                &&& h % 8 == 0
                &&& h + HEADER_SIZE + hd.size <= self.heap@.len()
            },
            Origin::Mapped => {
                &&& MAP_BASE <= h
                &&& h % 8 == 0
                &&& HEADER_SIZE < hd.size
                &&& h + hd.size <= MAP_BASE + self.arena@.len()
            },
        }
    }

    /// Where the region described by the header at `h` ends: a pool
    /// header is followed by its block, a mapped header's size already
    /// counts itself.
    pub open spec fn span_end(self, h: usize) -> int {
        let hd = self.headers@[h];
        match hd.origin {
            Origin::Pool => h + HEADER_SIZE + hd.size,
            Origin::Mapped => h + hd.size,
        }
    }

    /// No two headers describe overlapping memory: every block, free or
    /// allocated, owns its region alone.
    pub open spec fn spans_disjoint(self) -> bool {
        forall|h1: usize, h2: usize|
            #[trigger] self.headers@.contains_key(h1) && #[trigger] self.headers@.contains_key(h2)
                && h1 != h2 ==> self.span_end(h1) <= h2 || self.span_end(h2) <= h1
    }

    /// An address on the free chain of class `c` carries a pool header of
    /// exactly that class's size.
    pub open spec fn free_entry_wf(self, c: int, h: usize) -> bool {
        &&& self.headers@.contains_key(h)
        &&& self.headers@[h].size == c * (ALIGN as int)
        &&& self.headers@[h].origin is Pool
    }

    /// The bin table has one chain per class, class 0 stays empty, and
    /// every chain entry is a free block of the chain's class.
    pub open spec fn bins_wf(self) -> bool {
        &&& self.bins@.len() == NUM_LIST
        &&& self.bins@[0]@.len() == 0
        &&& forall|c: int, j: int|
            0 <= c < NUM_LIST && 0 <= j < self.bins@[c]@.len() ==> self.free_entry_wf(
                c,
                #[trigger] self.bins@[c]@[j],
            )
    }

    /// No block sits on two free chains, nor twice on one: a free block is
    /// owned by exactly one bin.
    pub open spec fn bins_distinct(self) -> bool {
        forall|c1: int, j1: int, c2: int, j2: int|
            0 <= c1 < NUM_LIST && 0 <= j1 < self.bins@[c1]@.len() && 0 <= c2 < NUM_LIST && 0 <= j2
                < self.bins@[c2]@.len() && (c1 != c2 || j1 != j2) ==> #[trigger] self.bins@[c1]@[j1]
                != #[trigger] self.bins@[c2]@[j2]
    }

    /// The allocator's invariant: established by `new`, preserved by every
    /// operation.
    pub open spec fn wf(self) -> bool {
        &&& self.bins_wf()
        &&& self.bins_distinct()
        &&& forall|h: usize| #[trigger] self.headers@.contains_key(h) ==> self.header_wf(h)
        &&& self.spans_disjoint()
        &&& self.heap@.len() <= self.heap_limit
        &&& self.heap@.len() % 8 == 0
        &&& self.heap_limit <= MAP_BASE
        &&& self.arena@.len() <= usize::MAX - MAP_BASE
        &&& self.arena@.len() % 8 == 0
        &&& self.growth_count <= self.heap@.len()
        &&& self.bootstrap_count <= 1
        &&& (self.initialized ==> self.bootstrap_count == 1)
        &&& (!self.initialized ==> {
            &&& self.heap@.len() == 0
            &&& self.arena@.len() == 0
            &&& self.headers@ =~= Map::<usize, Header>::empty()
            &&& forall|c: int| 0 <= c < NUM_LIST ==> self.bins@[c]@.len() == 0
            &&& self.bootstrap_count == 0
        })
    }

    /// Whether `h` sits on some free chain.
    pub open spec fn on_free_chain(self, h: usize) -> bool {
        exists|c: int, j: int|
            #![trigger self.bins@[c]@[j]]
            0 <= c < NUM_LIST && 0 <= j < self.bins@[c]@.len() && self.bins@[c]@[j] == h
    }

    /// A block address handed out earlier: a header sits one header-size
    /// below it.
    pub open spec fn valid_block(self, p: usize) -> bool {
        &&& HEADER_SIZE <= p
        &&& self.headers@.contains_key(Self::hdr(p))
    }

    /// A block currently owned by the caller: valid, and (for a pool
    /// block) not on any free chain.
    pub open spec fn allocated(self, p: usize) -> bool {
        &&& self.valid_block(p)
        &&& (self.header_of(Self::hdr(p)).origin is Pool ==> !self.on_free_chain(Self::hdr(p)))
    }

    /// The usable byte count of a block: what the caller may read and
    /// write.
    pub open spec fn payload_len(self, p: usize) -> int {
        let hd = self.header_of(Self::hdr(p));
        match hd.origin {
            Origin::Pool => hd.size as int,
            Origin::Mapped => hd.size - HEADER_SIZE,
        }
    }

    /// The usable bytes of a block.
    pub open spec fn block_bytes(self, p: usize) -> Seq<u8> {
        let hd = self.header_of(Self::hdr(p));
        match hd.origin {
            Origin::Pool => self.heap@.subrange(p as int, p + hd.size),
            Origin::Mapped => self.arena@.subrange(
                p - MAP_BASE,
                p - MAP_BASE + hd.size - HEADER_SIZE,
            ),
        }
    }

    /// A fresh allocator around an untouched address space. `heap_limit`
    /// bounds how far the data segment may grow; nothing is reserved until
    /// the first request bootstraps the bin table.
    pub fn new(heap_limit: usize) -> (a: Allocator)
        requires
            heap_limit <= MAP_BASE,
        ensures
            a.wf(),
            !a.initialized,
            a.heap_limit == heap_limit,
            a.heap@.len() == 0,
            a.arena@.len() == 0,
            a.bootstrap_count == 0,
            a.growth_count == 0,
    {
        let mut bins: Vec<Vec<usize>> = Vec::new();
        let mut c: usize = 0;
        while c < NUM_LIST
            invariant
                c <= NUM_LIST,
                bins@.len() == c,
                forall|i: int| 0 <= i < c ==> bins@[i]@.len() == 0,
            decreases NUM_LIST - c,
        {
            bins.push(Vec::new());
            c += 1;
        }
        let a = Allocator {
            initialized: false,
            heap: Vec::new(),
            heap_limit,
            arena: Vec::new(),
            bins,
            headers: HashMap::new(),
            bootstrap_count: 0,
            growth_count: 0,
        };
        proof {
            assert(a.headers@ =~= Map::<usize, Header>::empty());
        }
        a
    }
}

} // verus!
