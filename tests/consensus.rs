use kaspa_consensus_order::compact::{calc_work, compact_target_bits, target_from_compact_bits};
use kaspa_consensus_order::difficulty::{DifficultyError, DifficultyManager, MIN_WINDOW_SIZE};
use kaspa_consensus_order::hash::BlockHash;
use kaspa_consensus_order::memory::{origin, MemoryStore};
use kaspa_consensus_order::sortable::{BlueWork, SortableBlock};
use kaspa_consensus_order::stores::{CompactGhostdagData, CompactHeaderData, GhostdagData};
use kaspa_consensus_order::traversal::{DagTraversalManager, TraversalError};
use kaspa_consensus_order::wide::WideUint;
use kaspa_consensus_order::window::{BlockWindowHeap, BoundedSizeBlockHeap};

const EASY_BITS: u32 = 0x1d00ffff;

fn h(n: u64) -> BlockHash {
    BlockHash::from_u64_word(n)
}

fn work(n: u64) -> BlueWork {
    BlueWork::from_u64(n)
}

fn add(store: &mut MemoryStore, hash: u64, parents: &[u64], sp: Option<u64>, score: u64, timestamp: u64, bits: u32) {
    let blue_work = work(score * 100 + 1);
    let header = CompactHeaderData { timestamp, bits, blue_work };
    let selected_parent = match sp {
        Some(p) => h(p),
        None => origin(),
    };
    let ghostdag = CompactGhostdagData { blue_score: score, blue_work, selected_parent };
    let parents: Vec<BlockHash> = parents.iter().map(|p| h(*p)).collect();
    assert!(store.add_block(h(hash), parents, header, ghostdag, score));
}

/// A chain 1 <- 2 <- ... <- n, block i with blue score i - 1.
fn chain_store(n: u64, step_ms: u64, bits: u32) -> MemoryStore {
    let mut store = MemoryStore::new();
    add(&mut store, 1, &[], None, 0, 0, bits);
    for i in 2..=n {
        add(&mut store, i, &[i - 1], Some(i - 1), i - 1, (i - 1) * step_ms, bits);
    }
    store
}

fn window_of(store_blocks: &[(u64, u64)]) -> BlockWindowHeap {
    let mut window = BlockWindowHeap::new();
    for (hash, score) in store_blocks {
        window.push(SortableBlock::new(h(*hash), work(score * 100 + 1)));
    }
    window
}

#[test]
fn sortable_blocks_order_by_work_then_hash() {
    let a = SortableBlock::new(h(9), work(10));
    let b = SortableBlock::new(h(1), work(11));
    let c = SortableBlock::new(h(2), work(11));
    assert!(a.less_than(&b));
    assert!(!b.less_than(&a));
    assert!(b.less_than(&c));
    assert!(!c.less_than(&b));
    assert!(!a.less_than(&a));
    let high = SortableBlock::new(h(0), BlueWork { lo: 0, mid: 0, hi: 1 });
    assert!(c.less_than(&high));
    assert!(BlueWork { lo: u64::MAX, mid: 0, hi: 0 }.less_than(&BlueWork { lo: 0, mid: 1, hi: 0 }));
}

#[test]
fn wide_arithmetic() {
    let x = WideUint::from_u64(u64::MAX, 3);
    let (y, carry) = x.mul_u64(u64::MAX);
    assert_eq!(carry, 0);
    assert_eq!(y.limbs, vec![1, u64::MAX - 1, 0]);
    let (q, r) = y.div_rem_u64(u64::MAX);
    assert_eq!(q.limbs, vec![u64::MAX, 0, 0]);
    assert_eq!(r, 0);
    let (s, c) = y.add_with_carry(&WideUint::from_u64(u64::MAX, 3));
    assert_eq!(c, 0);
    assert_eq!(s.limbs, vec![0, u64::MAX, 0]);
    assert!(x.lt(&y));
    assert!(!y.lt(&x));
    assert_eq!(y.sub(&x).limbs, vec![2, u64::MAX - 2, 0]);
    let (dq, dr) = y.div_rem(&WideUint::from_u64(3, 3));
    assert!(dr.is_zero());
    assert_eq!(dq.limbs, vec![0xaaaa_aaaa_aaaa_aaab, 0x5555_5555_5555_5554, 0]);
    let (dq, dr) = y.div_rem(&WideUint::from_u64(u64::MAX - 1, 3));
    assert_eq!(dq.limbs, vec![0, 1, 0]);
    assert_eq!(dr.limbs, vec![1, 0, 0]);
    assert!(WideUint::zero(2).is_zero());
    assert_eq!(WideUint::zero(2).complement().limbs, vec![u64::MAX, u64::MAX]);
}

#[test]
fn compact_bits_decode_and_encode() {
    let t = target_from_compact_bits(EASY_BITS);
    assert_eq!(t.limbs, vec![0, 0, 0, 0xffff_0000]);
    assert_eq!(compact_target_bits(&t), EASY_BITS);
    assert_eq!(target_from_compact_bits(0x03123456).limbs, vec![0x123456, 0, 0, 0]);
    assert_eq!(target_from_compact_bits(0x02123400).limbs, vec![0x1234, 0, 0, 0]);
    // A set sign bit encodes zero.
    assert!(target_from_compact_bits(0x04923456).is_zero());
    // Beyond 256 bits the target wraps to zero.
    assert!(target_from_compact_bits(0x23000001).is_zero());
    // A mantissa with its top bit set moves one byte down.
    assert_eq!(compact_target_bits(&WideUint::from_u64(0x80, 4)), 0x02008000);
    assert_eq!(compact_target_bits(&WideUint::zero(4)), 0);
    for bits in [0x1b0404cbu32, 0x1c00ffff, 0x03008000, 0x207fffff, 0x1d01fffe] {
        assert_eq!(compact_target_bits(&target_from_compact_bits(bits)), bits);
    }
}

#[test]
fn calc_work_values() {
    // 2^256 / (0xffff * 2^208 + 1)
    assert_eq!(calc_work(EASY_BITS), BlueWork { lo: 0x1_0001_0001, mid: 0, hi: 0 });
    // The largest target takes two hashes.
    assert_eq!(calc_work(0x207fffff), BlueWork { lo: 2, mid: 0, hi: 0 });
    let easier = calc_work(0x1d01fffe);
    let harder = calc_work(0x1c00ffff);
    assert!(easier.less_than(&calc_work(EASY_BITS)));
    assert!(calc_work(EASY_BITS).less_than(&harder));
}

#[test]
fn difficulty_is_genesis_until_window_is_full() {
    let store = chain_store(5, 1000, EASY_BITS);
    let manager = DifficultyManager::new(store, 0x1e7fffff, 11, 1000);
    let window = window_of(&[(1, 0), (2, 1), (3, 2), (4, 3), (5, 4)]);
    assert_eq!(manager.calculate_difficulty_bits(&window), 0x1e7fffff);
    assert_eq!(manager.calculate_difficulty_bits(&BlockWindowHeap::new()), 0x1e7fffff);
}

#[test]
fn difficulty_steady_state_keeps_target() {
    // Ten averaged blocks over 10000 ms at 1000 ms per block.
    let store = chain_store(11, 1000, EASY_BITS);
    let manager = DifficultyManager::new(store, 0x207fffff, 11, 1000);
    let blocks: Vec<(u64, u64)> = (1..=11).map(|i| (i, i - 1)).collect();
    let window = window_of(&blocks);
    assert_eq!(manager.calculate_difficulty_bits(&window), EASY_BITS);
}

#[test]
fn difficulty_follows_elapsed_time() {
    // Blocks twice as slow as intended double the target.
    let store = chain_store(11, 2000, EASY_BITS);
    let manager = DifficultyManager::new(store, 0x207fffff, 11, 1000);
    let blocks: Vec<(u64, u64)> = (1..=11).map(|i| (i, i - 1)).collect();
    assert_eq!(manager.calculate_difficulty_bits(&window_of(&blocks)), 0x1d01fffe);
}

#[test]
fn difficulty_drops_the_earliest_block_and_ignores_order() {
    // The earliest block carries a far harder target that must not count.
    let mut store = MemoryStore::new();
    add(&mut store, 1, &[], None, 0, 0, 0x1b0404cb);
    for i in 2..=11u64 {
        add(&mut store, i, &[i - 1], Some(i - 1), i - 1, (i - 1) * 1000, EASY_BITS);
    }
    let manager = DifficultyManager::new(store, 0x207fffff, 11, 1000);
    let forward: Vec<(u64, u64)> = (1..=11).map(|i| (i, i - 1)).collect();
    let mut backward = forward.clone();
    backward.reverse();
    let mut shuffled = forward.clone();
    shuffled.swap(0, 7);
    shuffled.swap(3, 10);
    let a = manager.calculate_difficulty_bits(&window_of(&forward));
    assert_eq!(a, EASY_BITS);
    assert_eq!(manager.calculate_difficulty_bits(&window_of(&backward)), a);
    assert_eq!(manager.calculate_difficulty_bits(&window_of(&shuffled)), a);
}

#[test]
fn difficulty_tie_on_earliest_timestamp_uses_block_rank() {
    // Blocks 1 and 2 share the earliest timestamp; block 1 ranks lower and is
    // the one dropped, so block 2's harder target counts.
    let mut store = MemoryStore::new();
    add(&mut store, 1, &[], None, 0, 0, EASY_BITS);
    add(&mut store, 2, &[1], Some(1), 1, 0, 0x1c00ffff);
    add(&mut store, 3, &[2], Some(2), 2, 1000, 0x1c00ffff);
    let manager = DifficultyManager::new(store, 0x207fffff, 3, 500);
    let forward = [(1, 0), (2, 1), (3, 2)];
    let backward = [(3, 2), (2, 1), (1, 0)];
    // Average 0xffff * 2^200 over two blocks, times 1000 / 500 / 2.
    assert_eq!(manager.calculate_difficulty_bits(&window_of(&forward)), 0x1c00ffff);
    assert_eq!(manager.calculate_difficulty_bits(&window_of(&backward)), 0x1c00ffff);
}

#[test]
fn hashrate_needs_a_minimal_window() {
    let store = chain_store(10, 1000, EASY_BITS);
    let manager = DifficultyManager::new(store, EASY_BITS, 10, 1000);
    let blocks: Vec<(u64, u64)> = (1..=10).map(|i| (i, i - 1)).collect();
    assert_eq!(
        manager.estimate_network_hashes_per_second(&window_of(&blocks)),
        Err(DifficultyError::UnderMinWindowSizeAllowed(10, MIN_WINDOW_SIZE))
    );
    assert_eq!(
        manager.estimate_network_hashes_per_second(&BlockWindowHeap::new()),
        Err(DifficultyError::UnderMinWindowSizeAllowed(0, MIN_WINDOW_SIZE))
    );
}

#[test]
fn hashrate_estimates() {
    let n = MIN_WINDOW_SIZE as u64;
    let blocks: Vec<(u64, u64)> = (1..=n).map(|i| (i, i - 1)).collect();
    // One block per second, 100 work apart.
    let manager = DifficultyManager::new(chain_store(n, 1000, EASY_BITS), EASY_BITS, 10, 1000);
    assert_eq!(manager.estimate_network_hashes_per_second(&window_of(&blocks)), Ok(100));
    // All in one millisecond.
    let manager = DifficultyManager::new(chain_store(n, 0, EASY_BITS), EASY_BITS, 10, 1000);
    assert_eq!(
        manager.estimate_network_hashes_per_second(&window_of(&blocks)),
        Err(DifficultyError::EmptyTimestampRange)
    );
    // Less than a second in all.
    let mut store = MemoryStore::new();
    add(&mut store, 1, &[], None, 0, 0, EASY_BITS);
    for i in 2..=n {
        add(&mut store, i, &[i - 1], Some(i - 1), i - 1, 1, EASY_BITS);
    }
    let manager = DifficultyManager::new(store, EASY_BITS, 10, 1000);
    assert_eq!(manager.estimate_network_hashes_per_second(&window_of(&blocks)), Ok(0));
}

fn mergeset_store() -> MemoryStore {
    // Blue works: block n has n * 100 + 1.
    let mut store = MemoryStore::new();
    add(&mut store, 1, &[], None, 0, 0, EASY_BITS);
    add(&mut store, 2, &[1], Some(1), 1, 1000, EASY_BITS);
    add(&mut store, 3, &[1], Some(1), 1, 1000, EASY_BITS);
    add(&mut store, 4, &[2], Some(2), 2, 2000, EASY_BITS);
    add(&mut store, 5, &[4], Some(4), 4, 3000, EASY_BITS);
    add(&mut store, 6, &[5], Some(5), 5, 4000, EASY_BITS);
    store
}

#[test]
fn daa_score_skips_blocks_below_the_window() {
    let store = mergeset_store();
    let manager = DifficultyManager::new(store.clone(), EASY_BITS, 10, 1000);
    // The window's lowest block has blue work 301 (score 3).
    let window = window_of(&[(5, 4), (4, 3), (6, 5)]);
    let data = GhostdagData {
        blue_score: 6,
        blue_work: work(601),
        selected_parent: h(6),
        mergeset_without_selected_parent: vec![h(3), h(5)],
    };
    let (score, non_daa) = manager.calc_daa_score_and_non_daa_mergeset_blocks(&window, &data, &store);
    assert_eq!(non_daa, vec![h(3)]);
    assert_eq!(score, 5 + 3 - 1);
}

#[test]
fn daa_score_with_empty_window_counts_nothing() {
    let store = mergeset_store();
    let manager = DifficultyManager::new(store.clone(), EASY_BITS, 10, 1000);
    let data = GhostdagData {
        blue_score: 6,
        blue_work: work(601),
        selected_parent: h(6),
        mergeset_without_selected_parent: vec![h(3), h(5)],
    };
    let (score, non_daa) =
        manager.calc_daa_score_and_non_daa_mergeset_blocks(&BlockWindowHeap::new(), &data, &store);
    assert_eq!(non_daa, vec![h(3), h(5), h(6)]);
    assert_eq!(score, 5);
}

#[test]
fn bounded_heap_keeps_highest_blocks() {
    let mut heap = BoundedSizeBlockHeap::new(2);
    assert!(!heap.reached_size_bound());
    assert!(heap.try_push(h(1), work(10)));
    assert!(heap.try_push(h(2), work(20)));
    assert!(heap.reached_size_bound());
    assert!(!heap.try_push(h(3), work(5)));
    assert!(heap.try_push(h(4), work(30)));
    assert_eq!(heap.binary_heap.len(), 2);
    assert_eq!(heap.binary_heap.peek_lowest(), Some(SortableBlock::new(h(2), work(20))));
    // A block equal to the lowest is not taken.
    assert!(!heap.try_push(h(2), work(20)));
    // Equal work, greater hash ranks above.
    assert!(heap.try_push(h(5), work(20)));
    assert_eq!(heap.binary_heap.peek_lowest(), Some(SortableBlock::new(h(5), work(20))));
    let reused = BoundedSizeBlockHeap::from_binary_heap(3, BlockWindowHeap::new());
    assert!(!reused.reached_size_bound());
}

/// Genesis 1; chain a: 2 <- 4; chain b: 3 <- 5; block 6 merges 4 and 5.
fn fork_store() -> MemoryStore {
    let mut store = MemoryStore::new();
    add(&mut store, 1, &[], None, 0, 0, EASY_BITS);
    add(&mut store, 2, &[1], Some(1), 1, 1000, EASY_BITS);
    add(&mut store, 3, &[1], Some(1), 1, 1000, EASY_BITS);
    add(&mut store, 4, &[2], Some(2), 2, 2000, EASY_BITS);
    add(&mut store, 5, &[3], Some(3), 2, 2000, EASY_BITS);
    add(&mut store, 6, &[4, 5], Some(4), 4, 3000, EASY_BITS);
    store
}

fn traversal(store: MemoryStore) -> DagTraversalManager<MemoryStore, MemoryStore, MemoryStore> {
    DagTraversalManager::new(h(1), store.clone(), store.clone(), store)
}

#[test]
fn chain_path_between_forks() {
    let manager = traversal(fork_store());
    let path = manager.calculate_chain_path(h(4), h(5));
    assert_eq!(path.removed, vec![h(4), h(2)]);
    assert_eq!(path.added, vec![h(3), h(5)]);
    let back = manager.calculate_chain_path(h(5), h(4));
    assert_eq!(back.removed, vec![h(5), h(3)]);
    assert_eq!(back.added, vec![h(2), h(4)]);
    let mut reversed = path.added.clone();
    reversed.reverse();
    assert_eq!(back.removed, reversed);
}

#[test]
fn chain_path_degenerate_cases() {
    let manager = traversal(fork_store());
    for x in 1..=6 {
        let path = manager.calculate_chain_path(h(x), h(x));
        assert!(path.added.is_empty());
        assert!(path.removed.is_empty());
    }
    let up = manager.calculate_chain_path(h(1), h(6));
    assert!(up.removed.is_empty());
    assert_eq!(up.added, vec![h(2), h(4), h(6)]);
}

#[test]
fn anticone_of_a_block() {
    let manager = traversal(fork_store());
    let anticone = manager.anticone(h(4), vec![h(6)], None).unwrap();
    let mut sorted = anticone.clone();
    sorted.sort_by_key(|x| x.w3);
    assert_eq!(sorted, vec![h(3), h(5)]);
    assert_eq!(manager.anticone(h(2), vec![h(6)], None).unwrap().len(), 2);
}

#[test]
fn anticone_of_own_tip_is_empty() {
    let manager = traversal(fork_store());
    for x in 1..=6 {
        assert_eq!(manager.anticone(h(x), vec![h(x)], None), Ok(vec![]));
    }
}

#[test]
fn anticone_traversal_limit() {
    let manager = traversal(fork_store());
    assert_eq!(
        manager.anticone(h(4), vec![h(6)], Some(0)),
        Err(TraversalError::ReachedMaxTraversalAllowed(1, 0))
    );
    // Blocks 6, 5 and 3 are counted.
    assert_eq!(
        manager.anticone(h(4), vec![h(6)], Some(2)),
        Err(TraversalError::ReachedMaxTraversalAllowed(3, 2))
    );
    assert!(manager.anticone(h(4), vec![h(6)], Some(3)).is_ok());
}

#[test]
fn lowest_chain_block_on_linear_chain() {
    // Blue scores 0..4 on blocks 1..5.
    let manager = traversal(chain_store(5, 1000, EASY_BITS));
    assert_eq!(manager.lowest_chain_block_above_or_equal_to_blue_score(h(5), 2), h(3));
    assert_eq!(manager.lowest_chain_block_above_or_equal_to_blue_score(h(5), 4), h(5));
    assert_eq!(manager.lowest_chain_block_above_or_equal_to_blue_score(h(5), 0), h(1));
    assert_eq!(manager.lowest_chain_block_above_or_equal_to_blue_score(h(1), 0), h(1));
    for x in 1..=5u64 {
        assert_eq!(manager.lowest_chain_block_above_or_equal_to_blue_score(h(x), x - 1), h(x));
    }
}

#[test]
fn bounded_anticone_within_budget_matches_unbounded() {
    let manager = traversal(fork_store());
    let unbounded = manager.anticone(h(4), vec![h(6)], None).unwrap();
    assert_eq!(manager.anticone(h(4), vec![h(6)], Some(3)), Ok(unbounded.clone()));
    assert_eq!(manager.anticone(h(4), vec![h(6)], Some(100)), Ok(unbounded));
    // Tips inside the past of the block count nothing, whatever the bound.
    assert_eq!(manager.anticone(h(6), vec![h(4), h(5)], Some(0)), Ok(vec![]));
}

#[test]
fn memory_store_refuses_bad_blocks() {
    let mut store = MemoryStore::new();
    add(&mut store, 1, &[], None, 0, 0, EASY_BITS);
    let header = CompactHeaderData { timestamp: 1, bits: EASY_BITS, blue_work: work(1) };
    let ghostdag = CompactGhostdagData { blue_score: 1, blue_work: work(1), selected_parent: h(1) };
    // Already there.
    assert!(!store.add_block(h(1), vec![], header, ghostdag, 1));
    // Unknown parent.
    assert!(!store.add_block(h(2), vec![h(9)], header, ghostdag, 1));
    // Selected parent not among the parents.
    let stray = CompactGhostdagData { selected_parent: h(7), ..ghostdag };
    assert!(!store.add_block(h(2), vec![h(1)], header, stray, 1));
    assert!(store.add_block(h(2), vec![h(1)], header, ghostdag, 1));
}
