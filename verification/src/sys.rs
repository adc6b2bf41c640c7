use vstd::prelude::*;

verus! {

use crate::state::Allocator;
use crate::{MAP_BASE, align_up, get_align, zeros};

/// Appends `n` zero bytes to `v`: how the system hands over fresh memory.
fn extend_zero(v: &mut Vec<u8>, n: usize)
    requires
        old(v)@.len() + n <= usize::MAX,
    ensures
        final(v)@ == old(v)@ + zeros(n as int),
{
    let mut k: usize = 0;
    while k < n
        invariant
            k <= n,
            v@ == old(v)@ + zeros(k as int),
            old(v)@.len() + n <= usize::MAX,
        decreases n - k,
    {
        v.push(0u8);
        proof {
            assert(v@ =~= old(v)@ + zeros(k + 1));
        }
        k += 1;
    }
    proof {
        assert(v@ =~= old(v)@ + zeros(n as int));
    }
}

impl Allocator {
    /// Extends the data segment by `delta` bytes and returns the old
    /// break, or fails — leaving the segment untouched — when the break
    /// would pass the segment's bound, which models both an out-of-memory
    /// refusal and an unexpected, non-contiguous extension point.
    pub(crate) fn sbrk(&mut self, delta: usize) -> (r: Option<usize>)
        requires
            delta <= MAP_BASE,
            delta % 8 == 0,
            old(self).heap@.len() <= old(self).heap_limit,
            old(self).heap_limit <= MAP_BASE,
        ensures
            final(self).heap_limit == old(self).heap_limit,
            final(self).arena == old(self).arena,
            final(self).bins == old(self).bins,
            final(self).headers == old(self).headers,
            final(self).initialized == old(self).initialized,
            final(self).bootstrap_count == old(self).bootstrap_count,
            final(self).growth_count == old(self).growth_count,
            r is Some <==> old(self).heap@.len() + delta <= old(self).heap_limit,
            r matches Some(base) ==> {
                &&& base == old(self).heap@.len()
                &&& final(self).heap@ == old(self).heap@ + zeros(delta as int)
            },
            r is None ==> final(self).heap == old(self).heap,
    {
        if delta <= self.heap_limit - self.heap.len() {
            let base = self.heap.len();
            extend_zero(&mut self.heap, delta);
            Some(base)
        } else {
            None
        }
    }

    /// Takes a fresh anonymous mapping of `len` bytes at the high end of
    /// the mapping space and returns its base address, or fails — without
    /// a trace — when the mapping space is exhausted. Like a page-granular
    /// system call, it hands over a little more than asked: the mapping is
    /// padded to the alignment, so every base address is aligned.
    pub(crate) fn mmap(&mut self, len: usize) -> (r: Option<usize>)
        requires
            old(self).arena@.len() <= usize::MAX - MAP_BASE,
            old(self).arena@.len() % 8 == 0,
        ensures
            final(self).heap_limit == old(self).heap_limit,
            final(self).heap == old(self).heap,
            final(self).bins == old(self).bins,
            final(self).headers == old(self).headers,
            final(self).initialized == old(self).initialized,
            final(self).bootstrap_count == old(self).bootstrap_count,
            final(self).growth_count == old(self).growth_count,
            r is Some <==> MAP_BASE + old(self).arena@.len() + align_up(len as int) <= usize::MAX,
            r matches Some(base) ==> {
                &&& base == MAP_BASE + old(self).arena@.len()
                &&& final(self).arena@ == old(self).arena@ + zeros(align_up(len as int))
                &&& final(self).arena@.len() <= usize::MAX - MAP_BASE
                &&& final(self).arena@.len() % 8 == 0
            },
            r is None ==> final(self).arena == old(self).arena,
    {
        let room = usize::MAX - MAP_BASE - self.arena.len();
        if len <= room {
            proof {
                assert(MAP_BASE >= 8);
            }
            let padded = get_align(len);
            if padded <= room {
                let base = MAP_BASE + self.arena.len();
                extend_zero(&mut self.arena, padded);
                Some(base)
            } else {
                None
            }
        } else {
            proof {
                crate::lemma_align_up(len as int);
            }
            None
        }
    }
}

} // verus!
