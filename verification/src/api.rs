use vstd::prelude::*;

verus! {

use crate::header::{Header, Origin};
use crate::state::Allocator;
use crate::growth::{grow_delta, grow_count_of, chunk_len, carved, seed_total, seed_count,
    seed_used, lemma_batch, lemma_seed_used_bound};
use crate::{ALIGN, MAX_BYTE, NUM_LIST, HEADER_SIZE, MAP_BASE, align_up, class_of, get_align,
    zeros};

broadcast use vstd::std_specs::hash::group_hash_axioms;

/// When an allocation request of `size` bytes against state `s` is owed a
/// block, and when it is owed a null result instead: never for a size-zero
/// request; on a fresh allocator, when the bootstrap reservation fits
/// (small requests are then served from the new seeds; large ones also
/// need room in the mapping space); on a bootstrapped allocator, small
/// requests need a stocked chain or room for one top-up, and large ones
/// room in the mapping space.
pub open spec fn malloc_succeeds(s: Allocator, size: int) -> bool {
    if size <= 0 {
        false
    } else if !s.initialized {
        seed_total() <= s.heap_limit && (align_up(size) <= MAX_BYTE || MAP_BASE + s.arena@.len()
            + align_up(HEADER_SIZE + size) <= usize::MAX)
    } else if align_up(size) <= MAX_BYTE {
        s.bins@[class_of(size)]@.len() > 0 || s.heap@.len() + grow_delta(align_up(size))
            <= s.heap_limit
    } else {
        MAP_BASE + s.arena@.len() + align_up(HEADER_SIZE + size) <= usize::MAX
    }
}

impl Allocator {
    /// Takes a free block of usable size `size` off its class's chain,
    /// topping the chain up from the data segment first if it is drained.
    /// Returns the block's header address, or nothing if the class is
    /// drained and the segment cannot grow.
    pub(crate) fn find_chunk(&mut self, size: usize) -> (r: Option<usize>)
        requires
            old(self).wf(),
            old(self).initialized,
            8 <= size <= 512,
            size % 8 == 0,
        ensures
            final(self).wf(),
            final(self).initialized,
            final(self).heap_limit == old(self).heap_limit,
            final(self).arena == old(self).arena,
            final(self).bootstrap_count == old(self).bootstrap_count,
            old(self).heap@.is_prefix_of(final(self).heap@),
            forall|h: usize|
                old(self).headers@.contains_key(h) ==> final(self).headers@.contains_key(h)
                    && final(self).headers@[h] == old(self).headers@[h],
            (r is Some) <==> (old(self).bins@[(size / 8) as int]@.len() > 0 || old(
                self,
            ).heap@.len() + grow_delta(size as int) <= old(self).heap_limit),
            r matches Some(h) ==> {
                &&& final(self).headers@.contains_key(h)
                &&& final(self).headers@[h].size == size
                &&& final(self).headers@[h].origin is Pool
                &&& !final(self).on_free_chain(h)
                &&& !old(self).allocated((h + HEADER_SIZE) as usize)
            },
            old(self).bins@[(size / 8) as int]@.len() > 0 ==> {
                &&& r == Some(old(self).bins@[(size / 8) as int]@.last())
                &&& final(self).bins@[(size / 8) as int]@ == old(self).bins@[(size
                    / 8) as int]@.drop_last()
                &&& forall|i: int|
                    0 <= i < NUM_LIST && i != (size / 8) as int ==> final(self).bins@[i] == old(
                        self,
                    ).bins@[i]
                &&& final(self).headers == old(self).headers
                &&& final(self).heap == old(self).heap
                &&& final(self).growth_count == old(self).growth_count
            },
            r is Some && old(self).bins@[(size / 8) as int]@.len() == 0 ==> {
                &&& r == Some(
                    (old(self).heap@.len() + (grow_count_of(size as int) - 1) * chunk_len(
                        size as int,
                    )) as usize,
                )
                &&& final(self).growth_count == old(self).growth_count + 1
                &&& final(self).bins@[(size / 8) as int]@.len() == grow_count_of(size as int) - 1
                &&& forall|i: int|
                    0 <= i < NUM_LIST && i != (size / 8) as int ==> final(self).bins@[i] == old(
                        self,
                    ).bins@[i]
                &&& final(self).heap@.len() == old(self).heap@.len() + grow_delta(size as int)
            },
            r is None ==> {
                &&& final(self).heap == old(self).heap
                &&& final(self).bins == old(self).bins
                &&& final(self).headers == old(self).headers
                &&& final(self).growth_count == old(self).growth_count
            },
            forall|cc: int, jj: int|
                0 <= cc < NUM_LIST && 0 <= jj < final(self).bins@[cc]@.len() ==> old(
                    self,
                ).on_free_chain(#[trigger] final(self).bins@[cc]@[jj]) || old(self).heap@.len()
                    <= final(self).bins@[cc]@[jj],
    {
        let index = size / 8;
        let ghost pre = *old(self);
        if self.bins[index].len() == 0 {
            let grown = self.grow_class(size);
            if !grown {
                return None;
            }
        }
        let ghost mid = *self;
        proof {
            let c = index as int;
            lemma_batch(size as int);
            if pre.bins@[c]@.len() == 0 {
                let n = grow_count_of(size as int);
                let cl = chunk_len(size as int);
                assert(n == 512int / (size as int));
                assert(mid.bins@[c]@ == pre.bins@[c]@ + carved(
                    pre.heap@.len() as int,
                    size as int,
                    n,
                ));
                assert(mid.bins@[c]@.len() == n);
                assert(mid.bins@[c]@.last() == carved(
                    pre.heap@.len() as int,
                    size as int,
                    n,
                )[n - 1]);
                assert(0 <= (n - 1) * cl && (n - 1) * cl + cl == n * cl) by (nonlinear_arith)
                    requires n >= 1, cl > 0;
                assert(mid.bins@[c]@.last() == pre.heap@.len() + (n - 1) * cl);
            }
            assert(mid.bins@[c]@.len() > 0);
        }
        let mut row = self.bins.remove(index);
        let h = row.pop().unwrap();
        self.bins.insert(index, row);
        proof {
            let post = *self;
            let c = index as int;
            assert(mid.bins@[c]@.len() > 0);
            assert(h == mid.bins@[c]@.last());
            assert(post.bins@[c]@ == mid.bins@[c]@.drop_last());
            assert forall|i: int| 0 <= i < NUM_LIST && i != c implies post.bins@[i]
                == mid.bins@[i] by {}
            // chain entries that remain were chain entries before
            assert forall|cc: int, jj: int|
                0 <= cc < NUM_LIST && 0 <= jj < post.bins@[cc]@.len() implies mid.on_free_chain(
                #[trigger] post.bins@[cc]@[jj],
            ) && post.bins@[cc]@[jj] == mid.bins@[cc]@[jj] by {
                assert(post.bins@[cc]@[jj] == mid.bins@[cc]@[jj]);
            }
            assert(mid.free_entry_wf(c, h));
            // the popped block sits on no chain: it was the newest entry
            // of its class's chain, and chains never share an address
            assert forall|cc: int, jj: int|
                0 <= cc < NUM_LIST && 0 <= jj < post.bins@[cc]@.len() implies #[trigger] post.bins@[cc]@[jj]
                != h by {
                if cc == c {
                    assert(mid.bins@[cc]@[jj] != mid.bins@[c]@[mid.bins@[c]@.len() - 1]);
                } else {
                    assert(mid.bins@[cc]@[jj] != mid.bins@[c]@[mid.bins@[c]@.len() - 1]);
                }
            }
            assert(!post.on_free_chain(h));
            assert(post.bins_wf());
            assert(post.bins_distinct());
            assert(post.wf());
            // the block was not owned by any caller beforehand
            let p = (h + HEADER_SIZE) as usize;
            if pre.bins@[c]@.len() > 0 {
                assert(pre.on_free_chain(h)) by {
                    assert(pre.bins@[c]@[pre.bins@[c]@.len() - 1] == h);
                }
                assert(!pre.allocated(p));
            } else {
                // freshly carved: its header address lies past the old break
                assert(pre.heap@.len() <= h);
                if pre.headers@.contains_key(h) {
                    assert(pre.header_wf(h));
                    if pre.headers@[h].origin is Pool {
                        assert(h + HEADER_SIZE + pre.headers@[h].size <= pre.heap@.len());
                        assert(false);
                    } else {
                        assert(MAP_BASE <= h);
                        assert(mid.header_wf(h));
                        assert(h + HEADER_SIZE + size <= mid.heap@.len());
                        assert(mid.heap@.len() <= MAP_BASE);
                        assert(false);
                    }
                }
                assert(!pre.valid_block(p));
            }
            // whatever still sits on a chain either sat there before or
            // was carved past the old break
            assert forall|cc: int, jj: int|
                0 <= cc < NUM_LIST && 0 <= jj < post.bins@[cc]@.len() implies pre.on_free_chain(
                #[trigger] post.bins@[cc]@[jj],
            ) || pre.heap@.len() <= post.bins@[cc]@[jj] by {
                let x = post.bins@[cc]@[jj];
                assert(x == mid.bins@[cc]@[jj]);
                if pre.bins@[c]@.len() > 0 || cc != c {
                    assert(pre.bins@[cc]@[jj] == x);
                    assert(pre.on_free_chain(x));
                } else {
                    let n = grow_count_of(size as int);
                    let cl = chunk_len(size as int);
                    assert(mid.bins@[cc]@ == pre.bins@[cc]@ + carved(
                        pre.heap@.len() as int,
                        size as int,
                        n,
                    ));
                    assert(x == carved(pre.heap@.len() as int, size as int, n)[jj]);
                    assert(0 <= jj * cl && jj * cl + cl <= n * cl) by (nonlinear_arith)
                        requires 0 <= jj < n, cl > 0;
                    assert(pre.heap@.len() <= x);
                }
            }
        }
        Some(h)
    }

    /// Serves an allocation request: rejects size zero, bootstraps the
    /// bin table on the first request, rounds the size to its class and
    /// recycles a pool block if the rounded size is within the ceiling,
    /// and otherwise takes a dedicated mapping. Returns the block
    /// address, or nothing when the needed memory cannot be had — in
    /// which case nothing is committed.
    #[verifier::rlimit(100)]
    pub fn malloc(&mut self, size: usize) -> (r: Option<usize>)
        requires
            old(self).wf(),
            size <= usize::MAX - HEADER_SIZE,
        ensures
            final(self).wf(),
            final(self).heap_limit == old(self).heap_limit,
            size > 0 ==> final(self).initialized,
            size == 0 ==> r is None && *final(self) == *old(self),
            final(self).bootstrap_count == old(self).bootstrap_count + (
            if old(self).initialized || size == 0 {
                0int
            } else {
                1int
            }),
            (r is Some) <==> malloc_succeeds(*old(self), size as int),
            r matches Some(p) ==> {
                &&& final(self).allocated(p)
                &&& !old(self).allocated(p)
                &&& p % 8 == 0
                &&& HEADER_SIZE <= p
                &&& (align_up(size as int) <= MAX_BYTE ==> {
                    &&& final(self).header_of(Allocator::hdr(p)).origin is Pool
                    &&& final(self).header_of(Allocator::hdr(p)).size == align_up(size as int)
                    &&& final(self).payload_len(p) == align_up(size as int)
                })
                &&& (align_up(size as int) > MAX_BYTE ==> {
                    &&& final(self).header_of(Allocator::hdr(p)).origin is Mapped
                    &&& final(self).header_of(Allocator::hdr(p)).size == HEADER_SIZE + size
                    &&& final(self).payload_len(p) == size
                    &&& p == MAP_BASE + old(self).arena@.len() + HEADER_SIZE
                })
            },
            old(self).initialized && 0 < size && align_up(size as int) <= MAX_BYTE && old(
                self,
            ).bins@[class_of(size as int)]@.len() > 0 ==> {
                &&& r == Some(
                    (old(self).bins@[class_of(size as int)]@.last() + HEADER_SIZE) as usize,
                )
                &&& final(self).bins@[class_of(size as int)]@ == old(self).bins@[class_of(
                    size as int,
                )]@.drop_last()
                &&& forall|i: int|
                    0 <= i < NUM_LIST && i != class_of(size as int) ==> final(self).bins@[i]
                        == old(self).bins@[i]
                &&& final(self).headers == old(self).headers
                &&& final(self).heap == old(self).heap
            },
            final(self).growth_count == old(self).growth_count + (
            if r is Some && old(self).initialized && 0 < size && align_up(size as int) <= MAX_BYTE
                && old(self).bins@[class_of(size as int)]@.len() == 0 {
                1int
            } else {
                0int
            }),
            r is Some && old(self).initialized && 0 < size && align_up(size as int) <= MAX_BYTE
                && old(self).bins@[class_of(size as int)]@.len() == 0 ==> {
                &&& r == Some(
                    (old(self).heap@.len() + (grow_count_of(align_up(size as int)) - 1)
                        * chunk_len(align_up(size as int)) + HEADER_SIZE) as usize,
                )
                &&& final(self).bins@[class_of(size as int)]@.len() == grow_count_of(
                    align_up(size as int),
                ) - 1
                &&& final(self).heap@.len() == old(self).heap@.len() + grow_delta(
                    align_up(size as int),
                )
            },
            !old(self).initialized && 0 < size && align_up(size as int) <= MAX_BYTE
                && seed_total() <= old(self).heap_limit ==> r == Some(
                (seed_used(class_of(size as int)) + (seed_count(class_of(size as int)) - 1)
                    * chunk_len(align_up(size as int)) + HEADER_SIZE) as usize,
            ),
            old(self).heap@.is_prefix_of(final(self).heap@),
            old(self).arena@.is_prefix_of(final(self).arena@),
            forall|h: usize|
                old(self).headers@.contains_key(h) ==> final(self).headers@.contains_key(h)
                    && final(self).headers@[h] == old(self).headers@[h],
            forall|q: usize|
                old(self).allocated(q) ==> #[trigger] final(self).allocated(q)
                    && final(self).block_bytes(q) == old(self).block_bytes(q)
                    && final(self).payload_len(q) == old(self).payload_len(q),
            r is None && old(self).initialized ==> {
                &&& final(self).heap == old(self).heap
                &&& final(self).arena == old(self).arena
                &&& final(self).bins == old(self).bins
                &&& final(self).headers == old(self).headers
                &&& final(self).growth_count == old(self).growth_count
            },
    {
        if size == 0 {
            return None;
        }
        if !self.initialized {
            let seeded = self.init_malloc();
            if !seeded {
                return None;
            }
        }
        let ghost mid = *self;
        let size_align = get_align(size);
        if size_align <= MAX_BYTE {
            proof {
                assert(1 <= (size_align / 8) as int == class_of(size as int) < NUM_LIST);
                if !old(self).initialized {
                    assert(mid.bins@[class_of(size as int)]@.len() == seed_count(
                        class_of(size as int),
                    ));
                    lemma_batch(size_align as int);
                    assert(seed_count(class_of(size as int)) >= 1);
                }
            }
            let got = self.find_chunk(size_align);
            match got {
                None => {
                    proof {
                        assert(!malloc_succeeds(*old(self), size as int));
                    }
                    None
                },
                Some(h) => {
                    proof {
                        lemma_preserved_blocks(*old(self), mid, *self);
                        assert(self.headers@.contains_key(h));
                        assert(self.header_wf(h));
                        if !old(self).initialized {
                            let c = class_of(size as int);
                            let n = seed_count(c);
                            let cl = chunk_len(size_align as int);
                            assert(c * (ALIGN as int) == size_align as int) by (nonlinear_arith)
                                requires
                                    c == size_align as int / 8,
                                    size_align as int % 8 == 0,
                                    8 <= size_align <= 512,
                            ;
                            lemma_batch(size_align as int);
                            assert(n == 512int / (size_align as int));
                            lemma_seed_used_bound(c);
                            assert(mid.bins@[c]@ == carved(seed_used(c), size_align as int, n));
                            assert(h == mid.bins@[c]@.last());
                            assert(h == carved(seed_used(c), size_align as int, n)[n - 1]);
                            assert(0 <= (n - 1) * cl && (n - 1) * cl + cl == n * cl)
                                by (nonlinear_arith)
                                requires n >= 1, cl > 0;
                            assert(seed_used(c) + (n - 1) * cl + HEADER_SIZE <= usize::MAX);
                            assert(h == (seed_used(c) + (n - 1) * cl) as usize);
                        }
                        if old(self).initialized && old(self).bins@[class_of(
                            size as int,
                        )]@.len() == 0 {
                            lemma_batch(size_align as int);
                            let n = grow_count_of(size_align as int);
                            let cl = chunk_len(size_align as int);
                            assert(n == 512int / (size_align as int));
                            assert(0 <= (n - 1) * cl && (n - 1) * cl + cl == n * cl)
                                by (nonlinear_arith)
                                requires n >= 1, cl > 0;
                            assert(old(self).heap@.len() + (n - 1) * cl + HEADER_SIZE
                                <= usize::MAX);
                            assert(h == (old(self).heap@.len() + (grow_count_of(
                                size_align as int,
                            ) - 1) * chunk_len(size_align as int)) as usize);
                        }
                    }
                    Some(h + HEADER_SIZE)
                },
            }
        } else {
            let mmap_size = HEADER_SIZE + size;
            let got = self.mmap(mmap_size);
            match got {
                None => {
                    proof {
                        assert(!malloc_succeeds(*old(self), size as int));
                    }
                    None
                },
                Some(base) => {
                    let ghost pre_insert = *self;
                    self.headers.insert(base, Header { size: mmap_size, origin: Origin::Mapped });
                    proof {
                        lemma_mapped_insert(mid, pre_insert, *self, base, mmap_size);
                        lemma_preserved_blocks(*old(self), mid, *self);
                    }
                    Some(base + HEADER_SIZE)
                },
            }
        }
    }
}

impl Allocator {
    /// Reads byte `i` of the block at `p`.
    pub fn read_byte(&self, p: usize, i: usize) -> (b: u8)
        requires
            self.wf(),
            self.valid_block(p),
            i < self.payload_len(p),
        ensures
            b == self.block_bytes(p)[i as int],
    {
        let h = p - HEADER_SIZE;
        let hd = *self.headers.get(&h).unwrap();
        proof {
            assert(self.header_wf(h));
        }
        match hd.origin {
            Origin::Pool => self.heap[p + i],
            Origin::Mapped => self.arena[p + i - MAP_BASE],
        }
    }

    /// Writes byte `i` of the block at `p`; nothing else moves.
    pub fn write_byte(&mut self, p: usize, i: usize, b: u8)
        requires
            old(self).wf(),
            old(self).valid_block(p),
            i < old(self).payload_len(p),
        ensures
            final(self).wf(),
            final(self).block_bytes(p) == old(self).block_bytes(p).update(i as int, b),
            final(self).valid_block(p),
            final(self).payload_len(p) == old(self).payload_len(p),
            // exactly one byte of one memory changes, nothing else
            old(self).header_of(Allocator::hdr(p)).origin is Pool ==> {
                &&& final(self).heap@ == old(self).heap@.update(p + i, b)
                &&& final(self).arena == old(self).arena
            },
            old(self).header_of(Allocator::hdr(p)).origin is Mapped ==> {
                &&& final(self).arena@ == old(self).arena@.update(p + i - MAP_BASE, b)
                &&& final(self).heap == old(self).heap
            },
            final(self).bins == old(self).bins,
            final(self).headers == old(self).headers,
            final(self).heap_limit == old(self).heap_limit,
            final(self).initialized == old(self).initialized,
            final(self).bootstrap_count == old(self).bootstrap_count,
            final(self).growth_count == old(self).growth_count,
            final(self).heap@.len() == old(self).heap@.len(),
            final(self).arena@.len() == old(self).arena@.len(),
            forall|q: usize|
                old(self).allocated(q) ==> #[trigger] final(self).allocated(q)
                    && final(self).payload_len(q) == old(self).payload_len(q),
            // no other block sees the write
            forall|q: usize|
                old(self).valid_block(q) && q != p ==> #[trigger] final(self).block_bytes(q)
                    == old(self).block_bytes(q),
    {
        let h = p - HEADER_SIZE;
        let hd = *self.headers.get(&h).unwrap();
        proof {
            assert(old(self).header_wf(h));
        }
        match hd.origin {
            Origin::Pool => {
                self.heap.set(p + i, b);
            },
            Origin::Mapped => {
                self.arena.set(p + i - MAP_BASE, b);
            },
        }
        proof {
            assert forall|hh: usize| self.headers@.contains_key(hh) implies self.header_wf(hh) by {
                assert(old(self).header_wf(hh));
            }
            assert(self.wf());
            assert(self.block_bytes(p) =~= old(self).block_bytes(p).update(i as int, b));
            assert forall|q: usize|
                old(self).valid_block(q) && q != p implies #[trigger] self.block_bytes(q) == old(
                self,
            ).block_bytes(q) by {
                let hq = Allocator::hdr(q);
                assert(old(self).header_wf(hq));
                assert(hq != h);
                assert(old(self).span_end(hq) <= h || old(self).span_end(h) <= hq);
                assert(self.block_bytes(q) =~= old(self).block_bytes(q));
            }
        }
    }

    /// Releases a block: nothing happens for a null request; a mapped
    /// block's region is returned to the system whole — exactly the
    /// length its header records; a pool block is pushed back onto the
    /// head of its class's free chain, ready to be handed out again
    /// first, with no coalescing of neighbours. Unmapping cannot fail in
    /// this model of the address space; a real refusal would only leak
    /// the region, never corrupt the books.
    pub fn free(&mut self, p: Option<usize>)
        requires
            old(self).wf(),
            p matches Some(q) ==> old(self).allocated(q),
        ensures
            final(self).wf(),
            p is None ==> *final(self) == *old(self),
            final(self).heap == old(self).heap,
            final(self).arena == old(self).arena,
            final(self).heap_limit == old(self).heap_limit,
            final(self).initialized == old(self).initialized,
            final(self).bootstrap_count == old(self).bootstrap_count,
            final(self).growth_count == old(self).growth_count,
            p matches Some(q) ==> {
                let h = Allocator::hdr(q);
                let c = (old(self).header_of(h).size / ALIGN) as int;
                &&& (old(self).header_of(h).origin is Pool ==> {
                    &&& final(self).headers == old(self).headers
                    &&& final(self).bins@[c]@ == old(self).bins@[c]@.push(h)
                    &&& forall|i: int|
                        0 <= i < NUM_LIST && i != c ==> final(self).bins@[i] == old(self).bins@[i]
                    &&& final(self).on_free_chain(h)
                })
                &&& (old(self).header_of(h).origin is Mapped ==> {
                    &&& final(self).headers@ == old(self).headers@.remove(h)
                    &&& final(self).bins == old(self).bins
                    &&& !final(self).valid_block(q)
                })
                &&& forall|q2: usize|
                    old(self).allocated(q2) && q2 != q ==> #[trigger] final(self).allocated(q2)
                        && final(self).block_bytes(q2) == old(self).block_bytes(q2)
            },
    {
        match p {
            None => {},
            Some(q) => {
                let h = q - HEADER_SIZE;
                let hd = *self.headers.get(&h).unwrap();
                proof {
                    assert(old(self).header_wf(h));
                }
                match hd.origin {
                    Origin::Mapped => {
                        // release the mapping: its whole length leaves the
                        // allocator's books at once
                        self.headers.remove(&h);
                        proof {
                            assert forall|hh: usize|
                                self.headers@.contains_key(hh) implies self.header_wf(hh) by {
                                assert(old(self).header_wf(hh));
                            }
                            assert forall|cc: int, jj: int|
                                0 <= cc < NUM_LIST && 0 <= jj < self.bins@[cc]@.len() implies self.free_entry_wf(
                                cc,
                                self.bins@[cc]@[jj],
                            ) by {
                                assert(old(self).free_entry_wf(cc, old(self).bins@[cc]@[jj]));
                                assert(old(self).headers@[self.bins@[cc]@[jj]].origin is Pool);
                                assert(self.bins@[cc]@[jj] != h);
                            }
                            assert(self.wf());
                        }
                    },
                    Origin::Pool => {
                        let index = hd.size / ALIGN;
                        proof {
                            vstd::arithmetic::div_mod::lemma_fundamental_div_mod(
                                hd.size as int,
                                8,
                            );
                            assert(1 <= index < NUM_LIST);
                        }
                        let ghost pre = *old(self);
                        let mut row = self.bins.remove(index);
                        row.push(h);
                        self.bins.insert(index, row);
                        proof {
                            let post = *self;
                            let c = index as int;
                            assert(post.bins@[c]@ == pre.bins@[c]@.push(h));
                            assert forall|i: int| 0 <= i < NUM_LIST && i != c implies post.bins@[i]
                                == pre.bins@[i] by {}
                            // the released block joins its chain as the only
                            // new entry; it was on no chain before
                            assert forall|cc: int, jj: int|
                                0 <= cc < NUM_LIST && 0 <= jj < post.bins@[cc]@.len() && !(cc == c
                                    && jj == pre.bins@[c]@.len()) implies #[trigger] post.bins@[cc]@[jj]
                                == pre.bins@[cc]@[jj] && post.bins@[cc]@[jj] != h by {
                                assert(post.bins@[cc]@[jj] == pre.bins@[cc]@[jj]);
                                if pre.bins@[cc]@[jj] == h {
                                    assert(pre.on_free_chain(h));
                                    assert(false);
                                }
                            }
                            assert(post.free_entry_wf(c, h)) by {
                                assert(pre.headers@[h].size == hd.size);
                                assert(hd.size == c * (ALIGN as int));
                            }
                            assert(post.bins_wf());
                            assert(post.bins_distinct());
                            assert(post.wf());
                            assert(post.on_free_chain(h)) by {
                                assert(post.bins@[c]@[pre.bins@[c]@.len() as int] == h);
                            }
                        }
                    },
                }
                proof {
                    lemma_free_preserves_others(*old(self), *self, q);
                }
            },
        }
    }

    /// Serves a zero-filled array request: allocates one block of
    /// `number * size` bytes and writes zeroes over all of it before
    /// handing it out.
    pub fn calloc(&mut self, number: usize, size: usize) -> (r: Option<usize>)
        requires
            old(self).wf(),
            number * size <= usize::MAX - HEADER_SIZE,
        ensures
            final(self).wf(),
            final(self).heap_limit == old(self).heap_limit,
            (r is Some) <==> malloc_succeeds(*old(self), number * size),
            final(self).bootstrap_count == old(self).bootstrap_count + (
            if old(self).initialized || number * size == 0 {
                0int
            } else {
                1int
            }),
            r matches Some(p) ==> {
                &&& final(self).allocated(p)
                &&& p % 8 == 0
                &&& final(self).payload_len(p) >= number * size
                &&& final(self).block_bytes(p).take(number * size) == zeros(number * size)
            },
            forall|h: usize|
                old(self).headers@.contains_key(h) ==> final(self).headers@.contains_key(h)
                    && final(self).headers@[h] == old(self).headers@[h],
            forall|q: usize|
                old(self).allocated(q) ==> #[trigger] final(self).allocated(q)
                    && final(self).block_bytes(q) == old(self).block_bytes(q),
    {
        let n = number * size;
        let got = self.malloc(n);
        match got {
            None => {
                proof {
                    assert forall|q: usize| old(self).allocated(q) implies self.allocated(q)
                        && self.block_bytes(q) == old(self).block_bytes(q) by {}
                }
                None
            },
            Some(p) => {
                let ghost mid = *self;
                let mut k: usize = 0;
                while k < n
                    invariant
                        mid.wf(),
                        mid.allocated(p),
                        k <= n,
                        n <= mid.payload_len(p),
                        self.wf(),
                        self.allocated(p),
                        self.payload_len(p) == mid.payload_len(p),
                        self.block_bytes(p).take(k as int) =~= zeros(k as int),
                        self.bins == mid.bins,
                        self.headers == mid.headers,
                        self.heap_limit == mid.heap_limit,
                        self.initialized == mid.initialized,
                        self.bootstrap_count == mid.bootstrap_count,
                        self.growth_count == mid.growth_count,
                        self.heap@.len() == mid.heap@.len(),
                        self.arena@.len() == mid.arena@.len(),
                        forall|q: usize|
                            mid.allocated(q) && q != p ==> #[trigger] self.allocated(q)
                                && self.block_bytes(q) == mid.block_bytes(q),
                    decreases n - k,
                {
                    let ghost prev = *self;
                    self.write_byte(p, k, 0u8);
                    proof {
                        assert(self.block_bytes(p) == prev.block_bytes(p).update(k as int, 0u8));
                        assert forall|i: int|
                            #![trigger self.block_bytes(p).take(k + 1)[i]]
                            0 <= i < k + 1 implies self.block_bytes(p).take(k + 1)[i] == 0u8 by {
                            if i < k {
                                assert(prev.block_bytes(p).take(k as int)[i] == zeros(k as int)[i]);
                            }
                        }
                        assert(self.block_bytes(p).take(k + 1) =~= zeros(k + 1));
                    }
                    k += 1;
                }
                proof {
                    assert(self.block_bytes(p).take(n as int) =~= zeros(n as int));
                    assert forall|q2: usize| old(self).allocated(q2) implies self.allocated(q2)
                        && self.block_bytes(q2) == old(self).block_bytes(q2) by {
                        assert(mid.allocated(q2));
                        assert(mid.block_bytes(q2) == old(self).block_bytes(q2));
                        assert(q2 != p);
                        assert(self.allocated(q2));
                        assert(self.block_bytes(q2) == mid.block_bytes(q2));
                    }
                }
                Some(p)
            },
        }
    }
}

impl Allocator {
    /// Resizes a block, correctness over throughput: always allocates a
    /// fresh block of the rounded size, copies as much of the payload as
    /// both blocks can hold, and releases the old block. A null request
    /// is a plain allocation. When the fresh block cannot be had, the old
    /// block is left untouched and null comes back.
    pub fn realloc(&mut self, p: Option<usize>, size: usize) -> (r: Option<usize>)
        requires
            old(self).wf(),
            size <= usize::MAX - HEADER_SIZE - ALIGN,
            p matches Some(q) ==> old(self).allocated(q),
        ensures
            final(self).wf(),
            final(self).heap_limit == old(self).heap_limit,
            (r is Some) <==> malloc_succeeds(*old(self), align_up(size as int)),
            final(self).bootstrap_count == old(self).bootstrap_count + (
            if old(self).initialized || size == 0 {
                0int
            } else {
                1int
            }),
            p is None ==> (r matches Some(np) ==> final(self).allocated(np)
                && final(self).payload_len(np) >= align_up(size as int)),
            p matches Some(q) ==> {
                let keep = if old(self).payload_len(q) <= align_up(size as int) {
                    old(self).payload_len(q)
                } else {
                    align_up(size as int)
                };
                &&& (r matches Some(np) ==> {
                    &&& final(self).allocated(np)
                    &&& np != q
                    &&& final(self).payload_len(np) >= align_up(size as int)
                    &&& final(self).block_bytes(np).take(keep) == old(self).block_bytes(q).take(
                        keep,
                    )
                    &&& !final(self).allocated(q)
                })
                &&& (r is None && size > 0 ==> {
                    &&& final(self).heap == old(self).heap
                    &&& final(self).arena == old(self).arena
                    &&& final(self).bins == old(self).bins
                    &&& final(self).headers == old(self).headers
                    &&& final(self).growth_count == old(self).growth_count
                    &&& final(self).allocated(q)
                })
                &&& (r is None && size == 0 ==> !final(self).allocated(q))
                &&& forall|q2: usize|
                    old(self).allocated(q2) && q2 != q ==> #[trigger] final(self).allocated(q2)
                        && final(self).block_bytes(q2) == old(self).block_bytes(q2)
            },
            p is None ==> forall|q2: usize|
                old(self).allocated(q2) ==> #[trigger] final(self).allocated(q2)
                    && final(self).block_bytes(q2) == old(self).block_bytes(q2),
    {
        let ghost pre = *old(self);
        let size_align = get_align(size);
        proof {
            crate::lemma_align_up(size_align as int);
        }
        match p {
            None => {
                let r = self.malloc(size_align);
                proof {
                    assert forall|q2: usize| old(self).allocated(q2) implies self.allocated(q2)
                        && self.block_bytes(q2) == old(self).block_bytes(q2) by {
                        assert(self.allocated(q2));
                        assert(self.block_bytes(q2) == old(self).block_bytes(q2));
                    }
                }
                r
            },
            Some(q) => {
                proof {
                    // a live block exists, so bootstrap has already run
                    assert(pre.initialized) by {
                        assert(pre.headers@.contains_key(Allocator::hdr(q)));
                        if !pre.initialized {
                            assert(pre.headers@ =~= Map::<usize, Header>::empty());
                        }
                    }
                }
                let got = self.malloc(size_align);
                match got {
                    None => {
                        if size == 0 {
                            self.free(Some(q));
                            proof {
                                lemma_released(pre, *self, q);
                                lemma_free_preserves_others(pre, *self, q);
                            }
                            None
                        } else {
                            proof {
                                assert forall|q2: usize|
                                    old(self).allocated(q2) && q2 != q implies self.allocated(q2)
                                    && self.block_bytes(q2) == old(self).block_bytes(q2) by {
                                    assert(self.allocated(q2));
                                    assert(self.block_bytes(q2) =~= old(self).block_bytes(q2));
                                }
                            }
                            None
                        }
                    },
                    Some(np) => {
                        let ghost mid = *self;
                        proof {
                            assert(mid.allocated(q));
                            assert(mid.block_bytes(q) == pre.block_bytes(q));
                            assert(mid.payload_len(q) == pre.payload_len(q));
                            assert(np != q) by {
                                assert(!pre.allocated(np));
                            }
                        }
                        let hq = q - HEADER_SIZE;
                        let hd = *self.headers.get(&hq).unwrap();
                        let old_usable = match hd.origin {
                            Origin::Pool => hd.size,
                            Origin::Mapped => hd.size - HEADER_SIZE,
                        };
                        let keep = if old_usable < size_align {
                            old_usable
                        } else {
                            size_align
                        };
                        proof {
                            assert(keep == if pre.payload_len(q) <= align_up(size as int) {
                                pre.payload_len(q)
                            } else {
                                align_up(size as int)
                            });
                            assert(keep <= mid.payload_len(q));
                            assert(keep <= mid.payload_len(np));
                        }
                        // copy the shared prefix out through a scratch
                        // buffer, then into the fresh block
                        let mut buf: Vec<u8> = Vec::new();
                        proof {
                            assert(buf@ =~= mid.block_bytes(q).take(0));
                        }
                        let mut k: usize = 0;
                        while k < keep
                            invariant
                                k <= keep,
                                buf@.len() == k,
                                mid.wf(),
                                mid.valid_block(q),
                                keep <= mid.payload_len(q),
                                *self == mid,
                                buf@ == mid.block_bytes(q).take(k as int),
                            decreases keep - k,
                        {
                            let b = self.read_byte(q, k);
                            buf.push(b);
                            proof {
                                assert(buf@ =~= mid.block_bytes(q).take(k + 1));
                            }
                            k += 1;
                        }
                        proof {
                            assert(self.block_bytes(np).take(0) =~= buf@.take(0));
                        }
                        let mut k: usize = 0;
                        while k < keep
                            invariant
                                k <= keep,
                                keep <= buf@.len(),
                                mid.wf(),
                                self.wf(),
                                self.allocated(np),
                                self.allocated(q),
                                np != q,
                                keep <= self.payload_len(np),
                                self.payload_len(np) == mid.payload_len(np),
                                self.block_bytes(np).take(k as int) == buf@.take(k as int),
                                self.bins == mid.bins,
                                self.headers == mid.headers,
                                self.heap_limit == mid.heap_limit,
                                self.initialized == mid.initialized,
                                self.bootstrap_count == mid.bootstrap_count,
                                self.growth_count == mid.growth_count,
                                self.heap@.len() == mid.heap@.len(),
                                self.arena@.len() == mid.arena@.len(),
                                forall|q2: usize|
                                    mid.allocated(q2) && q2 != np ==> #[trigger] self.allocated(q2)
                                        && self.block_bytes(q2) == mid.block_bytes(q2),
                            decreases keep - k,
                        {
                            let ghost prev = *self;
                            let b = buf[k];
                            self.write_byte(np, k, b);
                            proof {
                                assert(self.block_bytes(np) == prev.block_bytes(np).update(
                                    k as int,
                                    b,
                                ));
                                assert forall|i: int|
                                    #![trigger self.block_bytes(np).take(k + 1)[i]]
                                    0 <= i < k + 1 implies self.block_bytes(np).take(k + 1)[i]
                                    == buf@.take(k + 1)[i] by {
                                    if i < k {
                                        assert(prev.block_bytes(np).take(k as int)[i] == buf@.take(
                                            k as int,
                                        )[i]);
                                    }
                                }
                                assert(self.block_bytes(np).take(k + 1) =~= buf@.take(k + 1));
                            }
                            k += 1;
                        }
                        let ghost full = *self;
                        proof {
                            assert(buf@.take(keep as int) =~= buf@);
                            assert(full.block_bytes(np).take(keep as int) == mid.block_bytes(
                                q,
                            ).take(keep as int));
                        }
                        self.free(Some(q));
                        proof {
                            lemma_released(full, *self, q);
                            lemma_free_preserves_others(full, *self, q);
                            // no third block notices any of this
                            assert forall|q2: usize|
                                old(self).allocated(q2) && q2 != q implies self.allocated(q2)
                                && self.block_bytes(q2) == old(self).block_bytes(q2) by {
                                assert(mid.allocated(q2));
                                assert(mid.block_bytes(q2) == old(self).block_bytes(q2));
                                assert(q2 != np);
                                assert(full.allocated(q2));
                                assert(full.block_bytes(q2) == mid.block_bytes(q2));
                                assert(self.allocated(q2));
                                assert(self.block_bytes(q2) == full.block_bytes(q2));
                            }
                            // the fresh block survives the release untouched
                            assert(self.headers@.contains_key(Allocator::hdr(np)));
                            assert(self.headers@[Allocator::hdr(np)] == full.headers@[
                                Allocator::hdr(np)]);
                            assert(!self.on_free_chain(Allocator::hdr(np))) by {
                                if self.on_free_chain(Allocator::hdr(np)) {
                                    let (cc, jj): (int, int) = choose|cc: int, jj: int|
                                        0 <= cc < NUM_LIST && 0 <= jj < self.bins@[cc]@.len()
                                            && self.bins@[cc]@[jj] == Allocator::hdr(np);
                                    let hq2 = Allocator::hdr(q);
                                    let c2 = (full.header_of(hq2).size / ALIGN) as int;
                                    if full.header_of(hq2).origin is Pool && cc == c2 && jj
                                        == full.bins@[c2]@.len() {
                                        assert(self.bins@[cc]@[jj] == hq2);
                                    } else {
                                        assert(self.bins@[cc]@[jj] == full.bins@[cc]@[jj]);
                                        assert(full.on_free_chain(Allocator::hdr(np)));
                                    }
                                }
                            }
                            assert(self.allocated(np));
                            assert(self.block_bytes(np) == full.block_bytes(np));
                            assert(self.block_bytes(np).take(keep as int) == pre.block_bytes(
                                q,
                            ).take(keep as int));
                        }
                        Some(np)
                    },
                }
            },
        }
    }
}

/// Steps back from a block address to the header that describes it.
pub fn get_header(p: usize) -> (h: usize)
    requires
        HEADER_SIZE <= p,
    ensures
        h == Allocator::hdr(p),
{
    p - HEADER_SIZE
}

impl Allocator {
    /// The byte count recorded in the header of the block at `p`: the
    /// usable size of a pool block, the total mapped length of a mapped
    /// block.
    pub fn block_size(&self, p: usize) -> (s: usize)
        requires
            self.wf(),
            self.valid_block(p),
        ensures
            s == self.header_of(Allocator::hdr(p)).size,
    {
        let h = p - HEADER_SIZE;
        self.headers.get(&h).unwrap().size
    }

    /// Whether the block at `p` came from a dedicated mapping rather than
    /// the pools.
    pub fn block_is_mapped(&self, p: usize) -> (m: bool)
        requires
            self.wf(),
            self.valid_block(p),
        ensures
            m == (self.header_of(Allocator::hdr(p)).origin is Mapped),
    {
        let h = p - HEADER_SIZE;
        match self.headers.get(&h).unwrap().origin {
            Origin::Mapped => true,
            Origin::Pool => false,
        }
    }

    /// The usable byte count of the block at `p`.
    pub fn payload_size(&self, p: usize) -> (s: usize)
        requires
            self.wf(),
            self.valid_block(p),
        ensures
            s == self.payload_len(p),
    {
        let h = p - HEADER_SIZE;
        let hd = *self.headers.get(&h).unwrap();
        proof {
            assert(self.header_wf(h));
        }
        match hd.origin {
            Origin::Pool => hd.size,
            Origin::Mapped => hd.size - HEADER_SIZE,
        }
    }

    /// Whether the block at `p` is currently owned by a caller: a header
    /// sits in front of it and (for a pool block) it is on no free chain.
    pub fn is_allocated(&self, p: usize) -> (r: bool)
        requires
            self.wf(),
        ensures
            r == self.allocated(p),
    {
        if p < HEADER_SIZE {
            return false;
        }
        let h = p - HEADER_SIZE;
        match self.headers.get(&h) {
            None => false,
            Some(hd) => {
                match hd.origin {
                    Origin::Mapped => true,
                    Origin::Pool => {
                        proof {
                            assert(self.header_wf(h));
                        }
                        // only the chain of its own class could hold it
                        let c = hd.size / ALIGN;
                        let row = &self.bins[c];
                        let mut j: usize = 0;
                        let mut found = false;
                        while j < row.len()
                            invariant
                                j <= row@.len(),
                                found <==> exists|jj: int|
                                    #![trigger row@[jj]]
                                    0 <= jj < j && row@[jj] == h,
                            decreases row@.len() - j,
                        {
                            if row[j] == h {
                                found = true;
                            }
                            j += 1;
                        }
                        proof {
                            let ci = c as int;
                            if found {
                                let jj = choose|jj: int|
                                    #![trigger row@[jj]]
                                    0 <= jj < row@.len() && row@[jj] == h;
                                assert(self.bins@[ci]@[jj] == h);
                                assert(self.on_free_chain(h));
                            } else {
                                if self.on_free_chain(h) {
                                    let (cc, jj): (int, int) = choose|cc: int, jj: int|
                                        0 <= cc < NUM_LIST && 0 <= jj < self.bins@[cc]@.len()
                                            && self.bins@[cc]@[jj] == h;
                                    assert(self.free_entry_wf(cc, h));
                                    assert(self.headers@[h].size == cc * (ALIGN as int));
                                    assert(cc == ci);
                                    assert(row@[jj] == h);
                                    assert(false);
                                }
                            }
                        }
                        !found
                    },
                }
            },
        }
    }

    /// How many free blocks the chain of `class` currently holds.
    pub fn free_count(&self, class: usize) -> (n: usize)
        requires
            self.wf(),
            class < NUM_LIST,
        ensures
            n == self.bins@[class as int]@.len(),
    {
        self.bins[class].len()
    }

    /// How many times a drained class has been topped up from the heap.
    pub fn growth_events(&self) -> (n: u64)
        ensures
            n == self.growth_count,
    {
        self.growth_count
    }

    /// How many times bootstrap has run; never more than once.
    pub fn bootstrap_events(&self) -> (n: u64)
        ensures
            n == self.bootstrap_count,
    {
        self.bootstrap_count
    }

    /// Whether the one-time bootstrap has already been triggered.
    pub fn is_initialized(&self) -> (b: bool)
        ensures
            b == self.initialized,
    {
        self.initialized
    }

    /// Where the data segment's break currently sits.
    pub fn heap_size(&self) -> (n: usize)
        ensures
            n == self.heap@.len(),
    {
        self.heap.len()
    }
}

/// A release touches nothing but the released block: every other live
/// block keeps its header, stays off the chains, and keeps its bytes.
proof fn lemma_free_preserves_others(before: Allocator, after: Allocator, q: usize)
    requires
        before.wf(),
        after.wf(),
        before.allocated(q),
        after.heap == before.heap,
        after.arena == before.arena,
        before.header_of(Allocator::hdr(q)).origin is Pool ==> {
            &&& after.headers == before.headers
            &&& after.bins@[(before.header_of(Allocator::hdr(q)).size / ALIGN) as int]@
                == before.bins@[(before.header_of(Allocator::hdr(q)).size / ALIGN) as int]@.push(
                Allocator::hdr(q),
            )
            &&& forall|i: int|
                0 <= i < NUM_LIST && i != (before.header_of(Allocator::hdr(q)).size
                    / ALIGN) as int ==> after.bins@[i] == before.bins@[i]
        },
        before.header_of(Allocator::hdr(q)).origin is Mapped ==> {
            &&& after.headers@ == before.headers@.remove(Allocator::hdr(q))
            &&& after.bins == before.bins
        },
    ensures
        forall|q2: usize|
            before.allocated(q2) && q2 != q ==> #[trigger] after.allocated(q2)
                && after.block_bytes(q2) == before.block_bytes(q2),
{
    let hq = Allocator::hdr(q);
    let c = (before.header_of(hq).size / ALIGN) as int;
    assert forall|q2: usize| before.allocated(q2) && q2 != q implies #[trigger] after.allocated(
        q2,
    ) && after.block_bytes(q2) == before.block_bytes(q2) by {
        let h2 = Allocator::hdr(q2);
        assert(h2 != hq);
        assert(after.headers@.contains_key(h2));
        assert(after.headers@[h2] == before.headers@[h2]);
        if before.header_of(h2).origin is Pool {
            assert(!after.on_free_chain(h2)) by {
                if after.on_free_chain(h2) {
                    let (cc, jj): (int, int) = choose|cc: int, jj: int|
                        0 <= cc < NUM_LIST && 0 <= jj < after.bins@[cc]@.len()
                            && after.bins@[cc]@[jj] == h2;
                    if before.header_of(hq).origin is Pool && cc == c && jj == before.bins@[
                        c]@.len() {
                        assert(after.bins@[cc]@[jj] == hq);
                    } else {
                        assert(after.bins@[cc]@[jj] == before.bins@[cc]@[jj]);
                        assert(before.on_free_chain(h2));
                    }
                }
            }
        }
        assert(after.block_bytes(q2) =~= before.block_bytes(q2));
    }
}

/// After a release, the block is no longer owned by the caller: a mapped
/// block loses its header, a pool block sits on its class's chain.
proof fn lemma_released(before: Allocator, after: Allocator, q: usize)
    requires
        before.wf(),
        after.wf(),
        before.allocated(q),
        before.header_of(Allocator::hdr(q)).origin is Pool ==> {
            &&& after.headers == before.headers
            &&& after.on_free_chain(Allocator::hdr(q))
        },
        before.header_of(Allocator::hdr(q)).origin is Mapped ==> after.headers@
            == before.headers@.remove(Allocator::hdr(q)),
    ensures
        !after.allocated(q),
{
}

/// Helper facts for `malloc`: carried out of line to keep the body short.
/// A fresh mapped header at `base` keeps the table well-formed and every
/// older block intact.
proof fn lemma_mapped_insert(
    mid: Allocator,
    pre: Allocator,
    post: Allocator,
    base: usize,
    mmap_size: usize,
)
    requires
        mid.wf(),
        mid.initialized,
        pre.bins == mid.bins,
        pre.heap == mid.heap,
        pre.heap_limit == mid.heap_limit,
        pre.headers == mid.headers,
        pre.initialized == mid.initialized,
        pre.bootstrap_count == mid.bootstrap_count,
        pre.growth_count == mid.growth_count,
        base == MAP_BASE + mid.arena@.len(),
        base % 8 == 0,
        HEADER_SIZE < mmap_size,
        base + mmap_size <= MAP_BASE + pre.arena@.len(),
        pre.arena@.len() <= usize::MAX - MAP_BASE,
        pre.arena@.len() % 8 == 0,
        mid.arena@.is_prefix_of(pre.arena@),
        post == (Allocator {
            headers: post.headers,
            ..pre
        }),
        post.headers@ == pre.headers@.insert(base, Header { size: mmap_size, origin: Origin::Mapped }),
    ensures
        post.wf(),
        !mid.headers@.contains_key(base),
        forall|h: usize|
            mid.headers@.contains_key(h) ==> post.headers@.contains_key(h) && post.headers@[h]
                == mid.headers@[h],
        post.allocated((base + HEADER_SIZE) as usize),
{
    assert(!mid.headers@.contains_key(base)) by {
        if mid.headers@.contains_key(base) {
            assert(mid.header_wf(base));
            if mid.headers@[base].origin is Pool {
                assert(base + HEADER_SIZE + mid.headers@[base].size <= mid.heap@.len());
                assert(mid.heap@.len() <= MAP_BASE);
            } else {
                assert(base + mid.headers@[base].size <= MAP_BASE + mid.arena@.len());
                assert(HEADER_SIZE < mid.headers@[base].size);
            }
        }
    }
    assert forall|h: usize| post.headers@.contains_key(h) implies post.header_wf(h) by {
        if h == base {
        } else {
            assert(mid.header_wf(h));
        }
    }
    assert forall|cc: int, jj: int|
        0 <= cc < NUM_LIST && 0 <= jj < post.bins@[cc]@.len() implies post.free_entry_wf(
        cc,
        post.bins@[cc]@[jj],
    ) by {
        assert(mid.free_entry_wf(cc, mid.bins@[cc]@[jj]));
    }
    assert(post.wf());
    assert(!post.on_free_chain(base)) by {
        if post.on_free_chain(base) {
            let (cc, jj): (int, int) = choose|cc: int, jj: int|
                0 <= cc < NUM_LIST && 0 <= jj < post.bins@[cc]@.len() && post.bins@[cc]@[jj]
                    == base;
            assert(mid.free_entry_wf(cc, base));
            assert(mid.headers@[base].origin is Pool);
        }
    }
}

/// Older blocks survive an allocation: everything the two earlier states
/// agree to call allocated keeps its header, its chain status and its
/// bytes.
proof fn lemma_preserved_blocks(pre: Allocator, mid: Allocator, post: Allocator)
    requires
        pre.wf(),
        mid.wf(),
        post.wf(),
        pre.heap@.is_prefix_of(mid.heap@),
        mid.heap@.is_prefix_of(post.heap@),
        pre.arena@.is_prefix_of(mid.arena@),
        mid.arena@.is_prefix_of(post.arena@),
        forall|h: usize|
            pre.headers@.contains_key(h) ==> mid.headers@.contains_key(h) && mid.headers@[h]
                == pre.headers@[h],
        forall|h: usize|
            mid.headers@.contains_key(h) ==> post.headers@.contains_key(h) && post.headers@[h]
                == mid.headers@[h],
        forall|cc: int, jj: int|
            0 <= cc < NUM_LIST && 0 <= jj < post.bins@[cc]@.len() ==> mid.on_free_chain(
                #[trigger] post.bins@[cc]@[jj],
            ) || mid.heap@.len() <= post.bins@[cc]@[jj],
        forall|cc: int, jj: int|
            0 <= cc < NUM_LIST && 0 <= jj < mid.bins@[cc]@.len() ==> pre.on_free_chain(
                #[trigger] mid.bins@[cc]@[jj],
            ) || pre.heap@.len() <= mid.bins@[cc]@[jj],
    ensures
        forall|q: usize|
            pre.allocated(q) ==> #[trigger] post.allocated(q) && post.block_bytes(q)
                == pre.block_bytes(q) && post.payload_len(q) == pre.payload_len(q),
{
    assert forall|q: usize| pre.allocated(q) implies #[trigger] post.allocated(q)
        && post.block_bytes(q) == pre.block_bytes(q) && post.payload_len(q) == pre.payload_len(
        q,
    ) by {
        let h = Allocator::hdr(q);
        assert(pre.headers@.contains_key(h));
        assert(pre.header_wf(h));
        let hd = pre.headers@[h];
        assert(post.headers@.contains_key(h) && post.headers@[h] == hd);
        if hd.origin is Pool {
            assert(h + HEADER_SIZE + hd.size <= pre.heap@.len());
            assert(!pre.on_free_chain(h));
            assert(!post.on_free_chain(h)) by {
                if post.on_free_chain(h) {
                    let (cc, jj): (int, int) = choose|cc: int, jj: int|
                        0 <= cc < NUM_LIST && 0 <= jj < post.bins@[cc]@.len() && post.bins@[cc]@[jj]
                            == h;
                    assert(mid.on_free_chain(h) || mid.heap@.len() <= h);
                    if mid.on_free_chain(h) {
                        let (c2, j2): (int, int) = choose|c2: int, j2: int|
                            0 <= c2 < NUM_LIST && 0 <= j2 < mid.bins@[c2]@.len()
                                && mid.bins@[c2]@[j2] == h;
                        assert(pre.on_free_chain(h) || pre.heap@.len() <= h);
                    }
                }
            }
            assert(post.block_bytes(q) =~= pre.block_bytes(q)) by {
                assert(pre.heap@.len() <= mid.heap@.len() <= post.heap@.len());
                assert forall|i: int| 0 <= i < pre.heap@.len() implies post.heap@[i]
                    == pre.heap@[i] by {
                    assert(mid.heap@[i] == pre.heap@[i]);
                    assert(post.heap@[i] == mid.heap@[i]);
                }
            }
        } else {
            assert(h + hd.size <= MAP_BASE + pre.arena@.len());
            assert(post.block_bytes(q) =~= pre.block_bytes(q)) by {
                assert(pre.arena@.len() <= mid.arena@.len() <= post.arena@.len());
                assert forall|i: int| 0 <= i < pre.arena@.len() implies post.arena@[i]
                    == pre.arena@[i] by {
                    assert(mid.arena@[i] == pre.arena@[i]);
                    assert(post.arena@[i] == mid.arena@[i]);
                }
            }
        }
    }
}

} // verus!
