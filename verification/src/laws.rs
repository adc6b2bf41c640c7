use vstd::prelude::*;

verus! {

use crate::state::Allocator;
use crate::api::malloc_succeeds;
use crate::{MAX_BYTE, HEADER_SIZE, align_up, class_of};

/// LIFO reuse: release a small block, and the very next allocation of the
/// same class is owed exactly that block back.
///
/// `pre` is any well-formed state owning the block at `p`, whose class is
/// the class of `size`; `mid` relates to `pre` the way `release`'s
/// contract promises — the block's header pushed onto its chain. The
/// conclusions are precisely the hypotheses under which `malloc`'s
/// contract pins its result: the chain is stocked, a block is owed, and
/// the chain's newest entry — the one `malloc` returns, one header past —
/// is `p` itself.
pub proof fn lemma_lifo_reuse(pre: Allocator, mid: Allocator, p: usize, size: usize)
    requires
        pre.wf(),
        pre.allocated(p),
        0 < size,
        align_up(size as int) <= MAX_BYTE,
        pre.header_of(Allocator::hdr(p)).origin is Pool,
        pre.header_of(Allocator::hdr(p)).size == align_up(size as int),
        mid.initialized,
        mid.bins@[class_of(size as int)]@ == pre.bins@[class_of(size as int)]@.push(
            Allocator::hdr(p),
        ),
    ensures
        mid.bins@[class_of(size as int)]@.len() > 0,
        (mid.bins@[class_of(size as int)]@.last() + HEADER_SIZE) as usize == p,
        malloc_succeeds(mid, size as int),
{
    assert(mid.bins@[class_of(size as int)]@.last() == Allocator::hdr(p));
}

/// Bootstrap is idempotent: across any run of operations, the one-time
/// heap reservation happens exactly once — on the first request — and the
/// instrumented bootstrap counter shows it.
///
/// The hypotheses are the bootstrap clauses that `malloc`, `calloc`,
/// `realloc` and `release` all promise: an operation bumps the counter
/// only when it finds the flag clear, and leaves the flag set once any
/// request has been served.
pub proof fn lemma_bootstrap_once(s0: Allocator, s1: Allocator, s2: Allocator)
    requires
        !s0.initialized,
        s1.initialized,
        s1.bootstrap_count == s0.bootstrap_count + 1,
        s2.bootstrap_count == s1.bootstrap_count + (
        if s1.initialized {
            0int
        } else {
            1int
        }),
    ensures
        s2.bootstrap_count == s0.bootstrap_count + 1,
{
}

/// Ownership is exclusive: two distinct live blocks — headers included —
/// occupy disjoint memory, so nothing written through one block can ever
/// be seen through another.
pub proof fn lemma_blocks_disjoint(s: Allocator, p1: usize, p2: usize)
    requires
        s.wf(),
        s.valid_block(p1),
        s.valid_block(p2),
        p1 != p2,
    ensures
        p1 + s.payload_len(p1) <= p2 - HEADER_SIZE || p2 + s.payload_len(p2) <= p1 - HEADER_SIZE,
{
    let h1 = Allocator::hdr(p1);
    let h2 = Allocator::hdr(p2);
    assert(h1 != h2);
    assert(s.span_end(h1) <= h2 || s.span_end(h2) <= h1);
    assert(s.span_end(h1) == p1 + s.payload_len(p1));
    assert(s.span_end(h2) == p2 + s.payload_len(p2));
}

/// The boundary of the two allocation paths is exact: any request whose
/// rounded size is within the ceiling is served from a pool, any larger
/// one from a dedicated mapping — `513` maps while `512` pools.
pub proof fn lemma_path_boundary(s: Allocator, p: usize, size: usize)
    requires
        s.wf(),
        s.valid_block(p),
        0 < size,
        align_up(size as int) <= MAX_BYTE ==> s.header_of(Allocator::hdr(p)).origin is Pool,
        align_up(size as int) > MAX_BYTE ==> s.header_of(Allocator::hdr(p)).origin is Mapped,
    ensures
        size <= MAX_BYTE ==> s.header_of(Allocator::hdr(p)).origin is Pool,
        size > MAX_BYTE ==> s.header_of(Allocator::hdr(p)).origin is Mapped,
{
    crate::lemma_align_up(size as int);
    if size <= MAX_BYTE {
        assert(align_up(size as int) <= MAX_BYTE) by (nonlinear_arith)
            requires 0 < size <= 512, align_up(size as int) == ((size + 7) / 8) * 8;
    }
}

} // verus!
