use vstd::prelude::*;

verus! {

use vstd::arithmetic::div_mod::{lemma_fundamental_div_mod, lemma_mod_multiples_basic,
    lemma_add_mod_noop};
use crate::header::{Header, Origin};
use crate::state::Allocator;
use crate::{ALIGN, NUM_LIST, HEADER_SIZE, MAP_BASE, INIT_LIST_SIZE, ADD_LIST_SIZE};

broadcast use vstd::std_specs::hash::group_hash_axioms;

/// Bytes taken by one header-plus-block pair of usable size `size`.
pub open spec fn chunk_len(size: int) -> int {
    size + HEADER_SIZE
}

/// How many blocks of usable size `c * ALIGN` seed class `c` at bootstrap.
pub open spec fn seed_count(c: int) -> int {
    (INIT_LIST_SIZE as int) / (c * (ALIGN as int))
}

/// Heap bytes consumed by the seeds of classes `1` up to (excluding) `c`.
pub open spec fn seed_used(c: int) -> int
    decreases c,
{
    if c <= 1 {
        0
    } else {
        seed_used(c - 1) + seed_count(c - 1) * chunk_len((c - 1) * (ALIGN as int))
    }
}

/// Heap bytes the whole bootstrap reservation takes.
pub open spec fn seed_total() -> int {
    seed_used(NUM_LIST as int)
}

/// How many blocks one top-up of a drained class of usable size `size`
/// carves.
pub open spec fn grow_count_of(size: int) -> int {
    (ADD_LIST_SIZE as int) / size
}

/// Heap bytes one top-up of that class takes.
pub open spec fn grow_delta(size: int) -> int {
    grow_count_of(size) * chunk_len(size)
}

/// The header addresses of `count` blocks of usable size `size` carved
/// back to back from `base`.
pub open spec fn carved(base: int, size: int, count: int) -> Seq<usize> {
    Seq::new(count as nat, |j: int| (base + j * chunk_len(size)) as usize)
}

/// A batch cut from a 512-byte budget: at least one block, at most 64, and
/// the whole batch — headers included — fits in 2048 bytes.
pub proof fn lemma_batch(size: int)
    requires
        8 <= size <= 512,
    ensures
        1 <= 512int / size <= 64,
        (512int / size) * size <= 512,
        (512int / size) * chunk_len(size) <= 2048,
        size % 8 == 0 ==> (512int / size) * chunk_len(size) % 8 == 0,
{
    let n = 512int / size;
    lemma_fundamental_div_mod(512, size);
    assert(0 <= 512int % size < size) by (nonlinear_arith)
        requires 8 <= size <= 512;
    assert(n * size == 512 - 512int % size);
    assert(n * size <= 512);
    assert(n >= 1) by (nonlinear_arith)
        requires n * size >= 1, size <= 512, size >= 8;
    assert(n * 8 <= n * size) by (nonlinear_arith)
        requires n >= 0, size >= 8;
    assert(n <= 64);
    assert(n * chunk_len(size) == n * size + n * HEADER_SIZE) by (nonlinear_arith);
    assert(n * HEADER_SIZE <= 64 * 24) by (nonlinear_arith)
        requires n <= 64;
    if size % 8 == 0 {
        let q = size / 8;
        lemma_fundamental_div_mod(size, 8);
        assert(n * chunk_len(size) == (n * q + 3 * n) * 8) by (nonlinear_arith)
            requires size == 8 * q, chunk_len(size) == size + 24;
        lemma_mod_multiples_basic(n * q + 3 * n, 8);
    }
}

/// The bootstrap seeds stay within a small, 8-byte-aligned budget.
pub proof fn lemma_seed_used_bound(c: int)
    requires
        1 <= c <= NUM_LIST,
    ensures
        0 <= seed_used(c) <= 2048 * (c - 1),
        seed_used(c) % 8 == 0,
    decreases c,
{
    if c > 1 {
        lemma_seed_used_bound(c - 1);
        let s = (c - 1) * (ALIGN as int);
        assert(8 <= s <= 512) by (nonlinear_arith)
            requires s == (c - 1) * 8, 1 <= c - 1 <= 64;
        lemma_mod_multiples_basic(c - 1, 8);
        assert(s % 8 == 0);
        lemma_batch(s);
        assert(seed_count(c - 1) == 512int / s);
        lemma_add_mod_noop(seed_used(c - 1), seed_count(c - 1) * chunk_len(s), 8);
    }
}

/// Earlier classes never eat into the room reserved for later ones.
pub proof fn lemma_seed_used_mono(a: int, b: int)
    requires
        1 <= a <= b <= NUM_LIST,
    ensures
        seed_used(a) <= seed_used(b),
    decreases b,
{
    if a < b {
        lemma_seed_used_mono(a, b - 1);
        let s = (b - 1) * (ALIGN as int);
        assert(8 <= s <= 512) by (nonlinear_arith)
            requires s == (b - 1) * 8, 1 <= b - 1 <= 64;
        lemma_batch(s);
        assert(seed_count(b - 1) == 512int / s);
        assert(seed_count(b - 1) * chunk_len(s) >= 0);
    }
}

/// A region known before a carve and a freshly carved one cannot touch:
/// old pool blocks end at or before the carve base, old mapped blocks
/// live past the far side of the segment, and the fresh block lies
/// between the two.
proof fn lemma_old_clears_fresh(
    pre: Allocator,
    post: Allocator,
    base: usize,
    size: usize,
    count: usize,
    ho: usize,
    hf: usize,
)
    requires
        pre.wf(),
        pre.headers@.contains_key(ho),
        post.headers@.contains_key(ho),
        post.headers@[ho] == pre.headers@[ho],
        post.headers@.contains_key(hf),
        !pre.headers@.contains_key(hf),
        post.headers@[hf].origin is Pool,
        base <= hf,
        hf + HEADER_SIZE + post.headers@[hf].size <= base + count * chunk_len(size as int),
        base + count * chunk_len(size as int) <= pre.heap@.len(),
        forall|h: usize|
            pre.headers@.contains_key(h) && pre.headers@[h].origin is Pool ==> h + HEADER_SIZE
                + pre.headers@[h].size <= base,
    ensures
        post.span_end(ho) <= hf || post.span_end(hf) <= ho,
{
    if pre.headers@[ho].origin is Pool {
        assert(post.span_end(ho) == ho + HEADER_SIZE + pre.headers@[ho].size);
        assert(post.span_end(ho) <= base);
    } else {
        assert(pre.header_wf(ho));
        assert(MAP_BASE <= ho);
        assert(post.span_end(hf) <= base + count * chunk_len(size as int));
        assert(pre.heap@.len() <= pre.heap_limit <= MAP_BASE);
    }
}

impl Allocator {
    /// Partitions `count` header-plus-block pairs of usable size `size`
    /// out of already-reserved segment space starting at `base`, writing a
    /// pool header in front of each block and chaining all of them onto
    /// the class's bin, oldest first.
    pub(crate) fn carve(&mut self, base: usize, size: usize, count: usize)
        requires
            old(self).wf(),
            old(self).initialized,
            8 <= size <= 512,
            size % 8 == 0,
            base % 8 == 0,
            count <= 64,
            base + count * chunk_len(size as int) <= old(self).heap@.len(),
            forall|h: usize|
                old(self).headers@.contains_key(h) && old(self).headers@[h].origin is Pool
                    ==> h + HEADER_SIZE + old(self).headers@[h].size <= base,
        ensures
            final(self).wf(),
            final(self).initialized,
            final(self).heap == old(self).heap,
            final(self).heap_limit == old(self).heap_limit,
            final(self).arena == old(self).arena,
            final(self).bootstrap_count == old(self).bootstrap_count,
            final(self).growth_count == old(self).growth_count,
            final(self).bins@.len() == NUM_LIST,
            final(self).bins@[(size / 8) as int]@ == old(self).bins@[(size / 8) as int]@
                + carved(base as int, size as int, count as int),
            forall|i: int|
                0 <= i < NUM_LIST && i != (size / 8) as int ==> final(self).bins@[i]
                    == old(self).bins@[i],
            forall|h: usize|
                old(self).headers@.contains_key(h) ==> final(self).headers@.contains_key(h)
                    && final(self).headers@[h] == old(self).headers@[h],
            forall|h: usize|
                final(self).headers@.contains_key(h) && !old(self).headers@.contains_key(h) ==> {
                    &&& final(self).headers@[h].origin is Pool
                    &&& final(self).headers@[h].size == size
                    &&& base <= h
                    &&& h + HEADER_SIZE + final(self).headers@[h].size <= base + count * chunk_len(
                        size as int,
                    )
                },
            forall|j: int|
                0 <= j < count ==> #[trigger] final(self).headers@.contains_key(
                    (base + j * chunk_len(size as int)) as usize,
                ),
    {
        let c = size / 8;
        let chunk = size + HEADER_SIZE;
        proof {
            assert(1 <= c < NUM_LIST);
            assert(c * (ALIGN as int) == size) by (nonlinear_arith)
                requires c == size as int / 8, size as int % 8 == 0, 8 <= size <= 512;
        }
        let mut row = self.bins.remove(c);
        let ghost pre = *old(self);
        proof {
            assert(row@ =~= pre.bins@[c as int]@ + carved(base as int, size as int, 0));
        }
        let mut j: usize = 0;
        while j < count
            invariant
                pre.wf(),
                pre.initialized,
                j <= count,
                count <= 64,
                1 <= c < NUM_LIST,
                c == size / 8,
                c * (ALIGN as int) == size,
                chunk == size + HEADER_SIZE,
                8 <= size <= 512,
                size % 8 == 0,
                base % 8 == 0,
                base + count * chunk_len(size as int) <= pre.heap@.len(),
                forall|h: usize|
                    pre.headers@.contains_key(h) && pre.headers@[h].origin is Pool
                        ==> h + HEADER_SIZE + pre.headers@[h].size <= base,
                self.initialized == pre.initialized,
                self.heap == pre.heap,
                self.heap_limit == pre.heap_limit,
                self.arena == pre.arena,
                self.bootstrap_count == pre.bootstrap_count,
                self.growth_count == pre.growth_count,
                self.bins@.len() == NUM_LIST - 1,
                forall|i: int| 0 <= i < c ==> self.bins@[i] == pre.bins@[i],
                forall|i: int| c <= i < NUM_LIST - 1 ==> self.bins@[i] == pre.bins@[i + 1],
                row@ == pre.bins@[c as int]@ + carved(base as int, size as int, j as int),
                forall|h: usize|
                    pre.headers@.contains_key(h) ==> self.headers@.contains_key(h)
                        && self.headers@[h] == pre.headers@[h],
                forall|h: usize|
                    self.headers@.contains_key(h) && !pre.headers@.contains_key(h) ==> {
                        &&& self.headers@[h].origin is Pool
                        &&& self.headers@[h].size == size
                        &&& base <= h
                        &&& h % 8 == 0
                        &&& h + HEADER_SIZE + self.headers@[h].size <= base + j * chunk_len(
                            size as int,
                        )
                        &&& carved(base as int, size as int, j as int).contains(h)
                    },
                forall|jj: int|
                    0 <= jj < j ==> #[trigger] self.headers@.contains_key(
                        (base + jj * chunk_len(size as int)) as usize,
                    ),
            decreases count - j,
        {
            proof {
                assert((j + 1) * chunk_len(size as int) <= count * chunk_len(size as int))
                    by (nonlinear_arith)
                    requires j + 1 <= count, chunk_len(size as int) >= 0;
                assert(j * chunk_len(size as int) + chunk_len(size as int) == (j + 1) * chunk_len(
                    size as int,
                )) by (nonlinear_arith);
                assert(j * chunk_len(size as int) >= 0) by (nonlinear_arith)
                    requires j >= 0, chunk_len(size as int) >= 0;
                let u = chunk as int / 8;
                lemma_fundamental_div_mod(chunk as int, 8);
                assert(j * chunk == (j * u) * 8) by (nonlinear_arith)
                    requires chunk == 8 * u;
                lemma_mod_multiples_basic(j * u, 8);
                lemma_add_mod_noop(base as int, j * (chunk as int), 8);
            }
            let h = base + j * chunk;
            self.headers.insert(h, Header { size, origin: Origin::Pool });
            row.push(h);
            proof {
                assert(row@ =~= pre.bins@[c as int]@ + carved(base as int, size as int, j + 1));
                assert forall|x: usize|
                    carved(base as int, size as int, j as int).contains(x) implies carved(
                    base as int,
                    size as int,
                    j + 1,
                ).contains(x) by {
                    let idx = choose|idx: int|
                        0 <= idx < j && carved(base as int, size as int, j as int)[idx] == x;
                    assert(carved(base as int, size as int, j + 1)[idx] == x);
                }
                assert(carved(base as int, size as int, j + 1)[j as int] == h);
                assert(carved(base as int, size as int, j + 1).contains(h));
            }
            j += 1;
        }
        self.bins.insert(c, row);
        proof {
            let post = *self;
            let cl = chunk_len(size as int);
            let old_len = pre.bins@[c as int]@.len() as int;
            assert(post.bins@[c as int]@ == pre.bins@[c as int]@ + carved(
                base as int,
                size as int,
                count as int,
            ));
            // positions past the old chain hold the freshly carved addresses
            assert forall|jj: int|
                #![trigger post.bins@[c as int]@[jj]]
                old_len <= jj < post.bins@[c as int]@.len() implies {
                let hh = post.bins@[c as int]@[jj];
                &&& hh == base + (jj - old_len) * cl
                &&& base <= hh
                &&& hh + HEADER_SIZE + size <= base + count * cl
            } by {
                let k = jj - old_len;
                assert(0 <= k < count);
                assert(0 <= k * cl) by (nonlinear_arith)
                    requires k >= 0, cl > 0;
                assert(k * cl + cl == (k + 1) * cl) by (nonlinear_arith);
                assert((k + 1) * cl <= count * cl) by (nonlinear_arith)
                    requires k + 1 <= count, cl >= 0;
                assert(post.bins@[c as int]@[jj] == carved(base as int, size as int, count as int)[k]);
            }
            // positions on any chain that already existed end at or before base
            assert forall|cc: int, jj: int|
                #![trigger post.bins@[cc]@[jj]]
                0 <= cc < NUM_LIST && 0 <= jj < post.bins@[cc]@.len() && !(cc == c && jj >= old_len)
                    implies {
                    let hh = post.bins@[cc]@[jj];
                    &&& hh == pre.bins@[cc]@[jj]
                    &&& pre.free_entry_wf(cc, hh)
                    &&& hh < base
                } by {
                let hh = post.bins@[cc]@[jj];
                assert(hh == pre.bins@[cc]@[jj]);
                assert(pre.free_entry_wf(cc, hh));
                assert(pre.headers@.contains_key(hh));
                assert(hh + HEADER_SIZE + pre.headers@[hh].size <= base);
            }
            // the new chain entries are well-formed free entries of class c
            assert forall|cc: int, jj: int|
                0 <= cc < NUM_LIST && 0 <= jj < post.bins@[cc]@.len() implies post.free_entry_wf(
                cc,
                post.bins@[cc]@[jj],
            ) by {
                let hh = post.bins@[cc]@[jj];
                if cc == c && jj >= old_len {
                    let k = jj - old_len;
                    assert(post.headers@.contains_key((base + k * cl) as usize));
                    assert(hh == base + k * cl);
                    if pre.headers@.contains_key(hh) {
                        // impossible: everything known to the old table lies
                        // below base or at the far side of the mapping space
                        if pre.headers@[hh].origin is Pool {
                            assert(hh + HEADER_SIZE + pre.headers@[hh].size <= base);
                            assert(false);
                        } else {
                            assert(MAP_BASE <= hh);
                            assert(hh + HEADER_SIZE + size <= base + count * cl);
                            assert(base + count * cl <= pre.heap@.len());
                            assert(pre.heap@.len() <= MAP_BASE);
                            assert(false);
                        }
                    }
                    assert(self.headers@[hh].size == size);
                    assert(self.headers@[hh].origin is Pool);
                } else {
                    assert(pre.free_entry_wf(cc, hh));
                }
            }
            // distinctness: old entries lie below base, new ones start there
            // and are spaced one chunk apart
            assert forall|c1: int, j1: int, c2: int, j2: int|
                0 <= c1 < NUM_LIST && 0 <= j1 < post.bins@[c1]@.len() && 0 <= c2 < NUM_LIST && 0
                    <= j2 < post.bins@[c2]@.len() && (c1 != c2 || j1 != j2) implies post.bins@[c1]@[j1]
                != post.bins@[c2]@[j2] by {
                let h1 = post.bins@[c1]@[j1];
                let h2 = post.bins@[c2]@[j2];
                let fresh1 = c1 == c && j1 >= old_len;
                let fresh2 = c2 == c && j2 >= old_len;
                if fresh1 {
                    assert(post.bins@[c as int]@[j1] == h1);
                }
                if fresh2 {
                    assert(post.bins@[c as int]@[j2] == h2);
                }
                if fresh1 && fresh2 {
                    let k1 = j1 - old_len;
                    let k2 = j2 - old_len;
                    assert(k1 != k2);
                    assert(k1 * cl != k2 * cl) by (nonlinear_arith)
                        requires k1 != k2, cl > 0;
                } else if !fresh1 && !fresh2 {
                    assert(h1 == pre.bins@[c1]@[j1] && h2 == pre.bins@[c2]@[j2]);
                }
            }
            // every header in the new table describes a region inside its memory
            assert forall|h: usize| post.headers@.contains_key(h) implies post.header_wf(h) by {
                if pre.headers@.contains_key(h) {
                    assert(pre.header_wf(h));
                } else {
                    assert(post.headers@[h].origin is Pool);
                    assert(base <= h && h + HEADER_SIZE + size <= base + count * cl);
                }
            }
            // regions stay pairwise disjoint: old ones end at or before
            // base, new ones sit one chunk apart on a grid starting there
            assert forall|h1: usize, h2: usize|
                post.headers@.contains_key(h1) && post.headers@.contains_key(h2) && h1 != h2
                    implies post.span_end(h1) <= h2 || post.span_end(h2) <= h1 by {
                let old1 = pre.headers@.contains_key(h1);
                let old2 = pre.headers@.contains_key(h2);
                if old1 && old2 {
                    assert(pre.span_end(h1) <= h2 || pre.span_end(h2) <= h1);
                } else if old1 && !old2 {
                    lemma_old_clears_fresh(pre, post, base, size, count, h1, h2);
                } else if !old1 && old2 {
                    lemma_old_clears_fresh(pre, post, base, size, count, h2, h1);
                } else {
                    let k1 = choose|k1: int|
                        0 <= k1 < count && carved(base as int, size as int, count as int)[k1]
                            == h1;
                    let k2 = choose|k2: int|
                        0 <= k2 < count && carved(base as int, size as int, count as int)[k2]
                            == h2;
                    assert(0 <= k1 * cl && (k1 + 1) * cl <= count * cl && k1 * cl + cl == (k1 + 1)
                        * cl) by (nonlinear_arith)
                        requires 0 <= k1 < count, cl > 0;
                    assert(0 <= k2 * cl && (k2 + 1) * cl <= count * cl && k2 * cl + cl == (k2 + 1)
                        * cl) by (nonlinear_arith)
                        requires 0 <= k2 < count, cl > 0;
                    assert(h1 == base + k1 * cl && h2 == base + k2 * cl);
                    assert(k1 != k2);
                    if k1 < k2 {
                        assert((k1 + 1) * cl <= k2 * cl) by (nonlinear_arith)
                            requires k1 + 1 <= k2, cl > 0;
                        assert(post.span_end(h1) <= h2);
                    } else {
                        assert((k2 + 1) * cl <= k1 * cl) by (nonlinear_arith)
                            requires k2 + 1 <= k1, cl > 0;
                        assert(post.span_end(h2) <= h1);
                    }
                }
            }
        }
    }

    /// Tops up a drained size class: extends the data segment by one fixed
    /// batch of blocks of usable size `size` and chains all of them onto
    /// the class's bin. Fails — committing nothing — when the segment
    /// cannot grow that far.
    pub(crate) fn grow_class(&mut self, size: usize) -> (r: bool)
        requires
            old(self).wf(),
            old(self).initialized,
            8 <= size <= 512,
            size % 8 == 0,
        ensures
            final(self).wf(),
            final(self).initialized,
            final(self).heap_limit == old(self).heap_limit,
            final(self).arena == old(self).arena,
            final(self).bootstrap_count == old(self).bootstrap_count,
            old(self).heap@.is_prefix_of(final(self).heap@),
            forall|h: usize|
                old(self).headers@.contains_key(h) ==> final(self).headers@.contains_key(h)
                    && final(self).headers@[h] == old(self).headers@[h],
            r <==> old(self).heap@.len() + grow_delta(size as int) <= old(self).heap_limit,
            r ==> {
                &&& final(self).growth_count == old(self).growth_count + 1
                &&& final(self).heap@.len() == old(self).heap@.len() + grow_delta(size as int)
                &&& final(self).bins@[(size / 8) as int]@ == old(self).bins@[(size / 8) as int]@
                    + carved(
                    old(self).heap@.len() as int,
                    size as int,
                    grow_count_of(size as int),
                )
                &&& forall|i: int|
                    0 <= i < NUM_LIST && i != (size / 8) as int ==> final(self).bins@[i] == old(
                        self,
                    ).bins@[i]
                &&& forall|h: usize|
                    final(self).headers@.contains_key(h) && !old(self).headers@.contains_key(h)
                        ==> old(self).heap@.len() <= h
            },
            !r ==> {
                &&& final(self).heap == old(self).heap
                &&& final(self).bins == old(self).bins
                &&& final(self).headers == old(self).headers
                &&& final(self).growth_count == old(self).growth_count
            },
    {
        let n = ADD_LIST_SIZE / size;
        let chunk = size + HEADER_SIZE;
        proof {
            lemma_batch(size as int);
            assert(n == grow_count_of(size as int));
            assert(n * chunk == grow_delta(size as int));
        }
        let delta = n * chunk;
        match self.sbrk(delta) {
            None => false,
            Some(base) => {
                proof {
                    assert(self.heap@.len() == base + delta);
                    assert forall|h: usize| self.headers@.contains_key(h) implies self.header_wf(
                        h,
                    ) by {
                        assert(old(self).header_wf(h));
                    }
                    assert(self.wf());
                    assert forall|h: usize|
                        self.headers@.contains_key(h) && self.headers@[h].origin is Pool implies h
                        + HEADER_SIZE + self.headers@[h].size <= base by {
                        assert(old(self).header_wf(h));
                    }
                }
                self.carve(base, size, n);
                proof {
                    assert(grow_delta(size as int) >= 1) by (nonlinear_arith)
                        requires
                            grow_count_of(size as int) >= 1,
                            chunk_len(size as int) >= 1,
                            grow_delta(size as int) == grow_count_of(size as int) * chunk_len(
                                size as int,
                            ),
                    ;
                }
                self.growth_count = self.growth_count + 1;
                true
            },
        }
    }

    /// One-time bootstrap: reserves, in a single extension of the data
    /// segment, enough room to seed every size class, and carves the
    /// reservation into per-class batches of free blocks. Runs at most
    /// once per allocator; on failure the bin table is left consistently
    /// empty and the flag stays set, so later requests fail cleanly
    /// instead of retrying the reservation.
    pub(crate) fn init_malloc(&mut self) -> (r: bool)
        requires
            old(self).wf(),
            !old(self).initialized,
        ensures
            final(self).wf(),
            final(self).initialized,
            final(self).heap_limit == old(self).heap_limit,
            final(self).arena == old(self).arena,
            final(self).bootstrap_count == old(self).bootstrap_count + 1,
            final(self).growth_count == old(self).growth_count,
            r <==> seed_total() <= old(self).heap_limit,
            r ==> {
                &&& final(self).heap@.len() == seed_total()
                &&& forall|cc: int|
                    1 <= cc < NUM_LIST ==> #[trigger] final(self).bins@[cc]@ == carved(
                        seed_used(cc),
                        cc * (ALIGN as int),
                        seed_count(cc),
                    )
                &&& forall|cc: int|
                    1 <= cc < NUM_LIST ==> #[trigger] final(self).bins@[cc]@.len() == seed_count(
                        cc,
                    )
            },
            !r ==> {
                &&& final(self).heap@.len() == 0
                &&& forall|cc: int| 0 <= cc < NUM_LIST ==> #[trigger] final(self).bins@[cc]@.len() == 0
                &&& final(self).headers@ =~= Map::<usize, Header>::empty()
            },
    {
        self.initialized = true;
        self.bootstrap_count = self.bootstrap_count + 1;
        // measure the reservation that seeds every class
        let mut total: usize = 0;
        let mut c: usize = 1;
        while c < NUM_LIST
            invariant
                1 <= c <= NUM_LIST,
                total == seed_used(c as int),
                total <= 2048 * (c - 1),
                total % 8 == 0,
            decreases NUM_LIST - c,
        {
            let size = c * 8;
            proof {
                lemma_batch(size as int);
            }
            let n = INIT_LIST_SIZE / size;
            let add = n * (size + HEADER_SIZE);
            proof {
                assert(n == seed_count(c as int));
                assert(add == seed_count(c as int) * chunk_len(size as int));
                assert(seed_used(c as int + 1) == seed_used(c as int) + seed_count(c as int)
                    * chunk_len((c as int) * (ALIGN as int)));
                lemma_add_mod_noop(total as int, add as int, 8);
            }
            total = total + add;
            c += 1;
        }
        match self.sbrk(total) {
            None => false,
            Some(base) => {
                let ghost limit = old(self).heap_limit;
                proof {
                    assert(base == 0);
                    assert(self.wf());
                }
                let mut c: usize = 1;
                let mut p: usize = 0;
                while c < NUM_LIST
                    invariant
                        1 <= c <= NUM_LIST,
                        total == seed_total(),
                        p == seed_used(c as int),
                        p <= total,
                        p % 8 == 0,
                        self.wf(),
                        self.initialized,
                        self.heap@.len() == seed_total(),
                        self.heap_limit == old(self).heap_limit,
                        self.arena == old(self).arena,
                        self.bootstrap_count == old(self).bootstrap_count + 1,
                        self.growth_count == old(self).growth_count,
                        self.bins@.len() == NUM_LIST,
                        forall|i: int|
                            1 <= i < c ==> #[trigger] self.bins@[i]@ == carved(
                                seed_used(i),
                                i * (ALIGN as int),
                                seed_count(i),
                            ),
                        forall|i: int|
                            1 <= i < c ==> #[trigger] self.bins@[i]@.len() == seed_count(i),
                        forall|i: int|
                            0 <= i < NUM_LIST && (i == 0 || c <= i) ==> #[trigger] self.bins@[i]@.len()
                                == 0,
                        forall|h: usize| #[trigger]
                            self.headers@.contains_key(h) ==> self.headers@[h].origin is Pool && h
                                + HEADER_SIZE + self.headers@[h].size <= p,
                    decreases NUM_LIST - c,
                {
                    let size = c * 8;
                    proof {
                        lemma_batch(size as int);
                    }
                    let n = INIT_LIST_SIZE / size;
                    proof {
                        assert(n == seed_count(c as int));
                        assert(seed_used(c as int + 1) == seed_used(c as int) + seed_count(
                            c as int,
                        ) * chunk_len((c as int) * (ALIGN as int)));
                        lemma_seed_used_mono(c as int + 1, NUM_LIST as int);
                        lemma_add_mod_noop(p as int, (n * (size + HEADER_SIZE)) as int, 8);
                    }
                    self.carve(p, size, n);
                    proof {
                        assert(self.bins@[c as int]@ =~= carved(
                            seed_used(c as int),
                            (c as int) * (ALIGN as int),
                            seed_count(c as int),
                        ));
                        assert(self.bins@[c as int]@.len() == seed_count(c as int));
                    }
                    p = p + n * (size + HEADER_SIZE);
                    c += 1;
                }
                true
            },
        }
    }
}

} // verus!
