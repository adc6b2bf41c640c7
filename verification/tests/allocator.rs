use segalloc::Allocator;
use segalloc::get_header;

const HEADER_SIZE: usize = 24;
const BIG_LIMIT: usize = 1 << 24;

fn fresh() -> Allocator {
    Allocator::new(BIG_LIMIT)
}

#[test]
fn align_rounds_up() {
    let mut a = fresh();
    let p = a.malloc(1).unwrap();
    assert_eq!(a.block_size(p), 8);
    let p = a.malloc(7).unwrap();
    assert_eq!(a.block_size(p), 8);
    let p = a.malloc(8).unwrap();
    assert_eq!(a.block_size(p), 8);
    let p = a.malloc(9).unwrap();
    assert_eq!(a.block_size(p), 16);
    let p = a.malloc(100).unwrap();
    assert_eq!(a.block_size(p), 104);
    let p = a.malloc(512).unwrap();
    assert_eq!(a.block_size(p), 512);
}

#[test]
fn header_sits_one_step_back() {
    assert_eq!(get_header(100), 100 - HEADER_SIZE);
    assert_eq!(get_header(HEADER_SIZE), 0);
}

#[test]
fn malloc_zero_returns_null() {
    let mut a = fresh();
    assert_eq!(a.malloc(0), None);
    assert!(!a.is_initialized());
}

#[test]
fn small_request_reports_small_origin() {
    let mut a = fresh();
    for size in [1usize, 8, 9, 100, 511, 512] {
        let p = a.malloc(size).unwrap();
        assert_eq!(p % 8, 0);
        assert!(!a.block_is_mapped(p));
        assert_eq!(a.block_size(p), (size + 7) / 8 * 8);
        assert_eq!(a.payload_size(p), (size + 7) / 8 * 8);
        assert!(a.is_allocated(p));
    }
}

#[test]
fn large_request_reports_mapped_origin_and_total_length() {
    let mut a = fresh();
    let p = a.malloc(513).unwrap();
    assert_eq!(p % 8, 0);
    assert!(a.block_is_mapped(p));
    assert_eq!(a.block_size(p), HEADER_SIZE + 513);
    assert_eq!(a.payload_size(p), 513);
    let q = a.malloc(4096).unwrap();
    assert!(a.block_is_mapped(q));
    assert_eq!(a.block_size(q), HEADER_SIZE + 4096);
}

#[test]
fn ceiling_boundary_picks_the_path() {
    let mut a = fresh();
    let pooled = a.malloc(512).unwrap();
    assert!(!a.block_is_mapped(pooled));
    let mapped = a.malloc(513).unwrap();
    assert!(a.block_is_mapped(mapped));
}

#[test]
fn release_then_allocate_reuses_lifo() {
    let mut a = fresh();
    let p = a.malloc(100).unwrap();
    a.free(Some(p));
    let q = a.malloc(100).unwrap();
    assert_eq!(p, q);
}

#[test]
fn release_two_then_allocate_reuses_newest_first() {
    let mut a = fresh();
    let p1 = a.malloc(40).unwrap();
    let p2 = a.malloc(40).unwrap();
    a.free(Some(p1));
    a.free(Some(p2));
    assert_eq!(a.malloc(40).unwrap(), p2);
    assert_eq!(a.malloc(40).unwrap(), p1);
}

#[test]
fn bootstrap_runs_exactly_once() {
    let mut a = fresh();
    assert_eq!(a.bootstrap_events(), 0);
    let p = a.malloc(8).unwrap();
    assert_eq!(a.bootstrap_events(), 1);
    let q = a.calloc(2, 8).unwrap();
    let r = a.realloc(Some(p), 64).unwrap();
    a.free(Some(q));
    a.free(Some(r));
    let s = a.malloc(1000).unwrap();
    a.free(Some(s));
    assert_eq!(a.bootstrap_events(), 1);
}

#[test]
fn failed_bootstrap_is_not_retried() {
    let mut a = Allocator::new(0);
    assert_eq!(a.malloc(8), None);
    assert_eq!(a.bootstrap_events(), 1);
    assert_eq!(a.malloc(8), None);
    assert_eq!(a.bootstrap_events(), 1);
    // the bin table stays consistently empty
    for class in 1..65 {
        assert_eq!(a.free_count(class), 0);
    }
}

#[test]
fn draining_a_seed_triggers_exactly_one_topup() {
    let mut a = fresh();
    // class 64 (512 bytes) is seeded with 512 / 512 = 1 block
    let p1 = a.malloc(512).unwrap();
    assert_eq!(a.growth_events(), 0);
    assert_eq!(a.free_count(64), 0);
    // the chain is drained: the next request grows it by one batch
    // (512 / 512 = 1 block) and takes the new block at once
    let p2 = a.malloc(512).unwrap();
    assert_eq!(a.growth_events(), 1);
    assert_eq!(a.free_count(64), 0);
    assert_ne!(p1, p2);
    let p3 = a.malloc(512).unwrap();
    assert_eq!(a.growth_events(), 2);
    assert_ne!(p2, p3);
}

#[test]
fn draining_a_wide_seed_triggers_one_batched_topup() {
    let mut a = fresh();
    // class 1 (8 bytes) is seeded with 512 / 8 = 64 blocks
    assert_eq!(a.free_count(0), 0);
    let mut last = 0usize;
    for _ in 0..64 {
        last = a.malloc(8).unwrap();
    }
    assert_eq!(a.growth_events(), 0);
    assert_eq!(a.free_count(1), 0);
    // the 65th request tops the class up with a fresh batch of
    // 512 / 8 = 64 blocks and takes one
    let p = a.malloc(8).unwrap();
    assert_eq!(a.growth_events(), 1);
    assert_eq!(a.free_count(1), 63);
    assert_ne!(p, last);
}

#[test]
fn first_requests_come_from_the_seed_layout() {
    // class 1 is seeded with 64 blocks of 8 bytes, carved from address 0
    // in 32-byte header-plus-block pairs; the newest seed sits at 63 * 32
    // and its payload one header past that
    let mut a = fresh();
    assert_eq!(a.malloc(8), Some(63 * 32 + HEADER_SIZE));
    // class 2 starts where class 1's seeds end and holds 32 pairs of 40
    let mut b = fresh();
    assert_eq!(b.malloc(16), Some(64 * 32 + 31 * 40 + HEADER_SIZE));
}

#[test]
fn topup_serves_from_the_new_extension() {
    let mut a = fresh();
    a.malloc(512).unwrap();
    let brk = a.heap_size();
    // the drained class grows by exactly one header-plus-block pair and
    // the new block — one header past the old break — is handed out
    let p = a.malloc(512).unwrap();
    assert_eq!(p, brk + HEADER_SIZE);
    assert_eq!(a.heap_size(), brk + HEADER_SIZE + 512);
}

#[test]
fn exhausted_heap_fails_cleanly() {
    // learn the exact bootstrap reservation, then grant no more than that
    let mut probe = fresh();
    probe.malloc(8).unwrap();
    let seed = probe.heap_size();

    let mut a = Allocator::new(seed);
    let p = a.malloc(512).unwrap();
    assert!(a.is_allocated(p));
    // the class's one seed is gone and the segment cannot grow
    assert_eq!(a.malloc(512), None);
    assert_eq!(a.growth_events(), 0);
    // other classes still serve from their seeds
    assert!(a.malloc(8).is_some());
    // and large requests bypass the heap entirely
    assert!(a.malloc(600).is_some());
}

#[test]
fn exhausted_mapping_space_fails_cleanly() {
    let mut a = fresh();
    a.malloc(8).unwrap();
    let before = a.heap_size();
    assert_eq!(a.malloc(usize::MAX - HEADER_SIZE), None);
    assert_eq!(a.heap_size(), before);
    assert_eq!(a.bootstrap_events(), 1);
}

#[test]
fn releasing_null_is_a_noop() {
    let mut a = fresh();
    let p = a.malloc(32).unwrap();
    let events = (a.bootstrap_events(), a.growth_events());
    let counts: Vec<usize> = (0..65).map(|c| a.free_count(c)).collect();
    let brk = a.heap_size();
    a.free(None);
    assert_eq!((a.bootstrap_events(), a.growth_events()), events);
    assert_eq!((0..65).map(|c| a.free_count(c)).collect::<Vec<usize>>(), counts);
    assert_eq!(a.heap_size(), brk);
    assert!(a.is_allocated(p));
}

#[test]
fn releasing_a_mapped_block_unmaps_it() {
    let mut a = fresh();
    let p = a.malloc(2000).unwrap();
    assert!(a.is_allocated(p));
    a.free(Some(p));
    assert!(!a.is_allocated(p));
}

#[test]
fn releasing_a_pool_block_stocks_its_chain() {
    let mut a = fresh();
    let p = a.malloc(200).unwrap();
    // class of 200 rounded is 25×8 = 200, seeded with 512 / 200 = 2 blocks
    assert_eq!(a.free_count(25), 1);
    a.free(Some(p));
    assert_eq!(a.free_count(25), 2);
    assert!(!a.is_allocated(p));
}

#[test]
fn live_blocks_are_distinct() {
    let mut a = fresh();
    let p1 = a.malloc(8).unwrap();
    let p2 = a.malloc(8).unwrap();
    let p3 = a.malloc(16).unwrap();
    assert_ne!(p1, p2);
    assert_ne!(p1, p3);
    assert_ne!(p2, p3);
}
