use kv_cache_scheduler::block_pool::{BlockID, BlockPool};
use kv_cache_scheduler::block_table::BlockTable;
use kv_cache_scheduler::sequence::{Metrics, Scheduler, TokenId};

// Fraction of prompt tokens served from the prefix cache.
fn hit_rate(metrics: &Metrics) -> f64 {
    if metrics.prefix_total == 0 {
        return 0.0;
    }
    metrics.prefix_hits as f64 / metrics.prefix_total as f64
}

#[test]
fn alloc_all_then_exhausted() {
    let mut pool = BlockPool::new(3);
    let _b0 = pool.allocate();
    let _b1 = pool.allocate();
    let _b2 = pool.allocate();
    assert!(pool.allocate().is_none());
}

#[test]
fn decref_returns_block_to_pool() {
    let mut pool = BlockPool::new(2);
    let b0 = pool.allocate().unwrap();
    pool.decref(b0);
    assert!(pool.allocate().is_some());
}

#[test]
fn ref_count_after_alloc_is_one() {
    let mut pool = BlockPool::new(2);
    let b0 = pool.allocate().unwrap();
    assert_eq!(pool.get_ref_count(b0), 1);
}

#[test]
fn incref_decref_shared_block() {
    let mut pool = BlockPool::new(2);
    let b0 = pool.allocate().unwrap();
    pool.incref(b0);
    assert_eq!(pool.get_ref_count(b0), 2);
    pool.decref(b0);
    assert_eq!(pool.get_ref_count(b0), 1);
    assert!(!pool.is_free(b0));
    pool.decref(b0);
    assert!(pool.is_free(b0));
}

#[test]
#[should_panic]
fn double_free_panics() {
    let mut pool = BlockPool::new(2);
    let b0 = pool.allocate().unwrap();
    pool.decref(b0);
    pool.decref(b0);
}

#[test]
fn empty_pool_returns_none() {
    let mut pool = BlockPool::new(0);
    assert!(pool.allocate().is_none());
}

#[test]
fn reallocated_block_has_ref_count_one() {
    let mut pool = BlockPool::new(1);
    let b0 = pool.allocate().unwrap();
    pool.decref(b0);
    let b0 = pool.allocate().unwrap();
    assert_eq!(pool.get_ref_count(b0), 1);
}

#[test]
fn is_free_reflects_alloc_state() {
    let mut pool = BlockPool::new(1);
    let b0 = pool.allocate().unwrap();
    assert!(!pool.is_free(b0));
    pool.decref(b0);
    assert!(pool.is_free(b0));
}

#[test]
#[should_panic]
fn decref_unallocated_block_panics() {
    let mut pool = BlockPool::new(2);
    pool.decref(BlockID(0));
}

#[test]
fn append_tokens_allocates_blocks_at_boundaries() {
    let mut pool = BlockPool::new(4);
    let mut table = BlockTable::new(2);
    table.append_token(&mut pool).unwrap();
    assert_eq!(table.len(), 1);
    table.append_token(&mut pool).unwrap();
    assert_eq!(table.len(), 1);
    table.append_token(&mut pool).unwrap();
    assert_eq!(table.len(), 2);
}

#[test]
fn logical_to_physical_correct_offset() {
    let mut pool = BlockPool::new(4);
    let mut table = BlockTable::new(2);
    for _ in 0..4 {
        table.append_token(&mut pool).unwrap();
    }
    let (_, offset) = table.logical_to_physical(0);
    assert_eq!(offset, 0);
    let (_, offset) = table.logical_to_physical(1);
    assert_eq!(offset, 1);
    let (_, offset) = table.logical_to_physical(2);
    assert_eq!(offset, 0);
    let (_, offset) = table.logical_to_physical(3);
    assert_eq!(offset, 1);
}

#[test]
fn is_last_block_full_correct() {
    let mut pool = BlockPool::new(4);
    let mut table = BlockTable::new(2);
    table.append_token(&mut pool).unwrap();
    assert!(!table.is_last_block_full());
    table.append_token(&mut pool).unwrap();
    assert!(table.is_last_block_full());
}

#[test]
fn fork_increfs_all_blocks() {
    let mut pool = BlockPool::new(4);
    let mut table = BlockTable::new(2);
    for _ in 0..4 {
        table.append_token(&mut pool).unwrap();
    }
    let _forked = table.fork(&mut pool);
    let (b0, _) = table.logical_to_physical(0);
    let (b2, _) = table.logical_to_physical(2);
    assert_eq!(pool.get_ref_count(b0), 2);
    assert_eq!(pool.get_ref_count(b2), 2);
}

#[test]
fn append_token_fails_when_pool_exhausted() {
    let mut pool = BlockPool::new(1);
    let mut table = BlockTable::new(2);
    table.append_token(&mut pool).unwrap();
    table.append_token(&mut pool).unwrap();
    let result = table.append_token(&mut pool);
    assert!(result.is_err());
}

// --- LRU Eviction ---

#[test]
fn eviction_triggered_when_pool_full() {
    // 4 blocks, block_size=4 — each sequence uses 1 block after prefill
    // pool has 2 free blocks; after 2 decode steps per sequence pool fills up
    let mut sched = Scheduler::new(4, 4);
    let seq_a = sched.add_request((0..4).map(TokenId).collect());
    let seq_b = sched.add_request((0..4).map(TokenId).collect());
    sched.prefill(seq_a);
    sched.prefill(seq_b);
    // 4 decode steps fills remaining 2 blocks; 5th step forces eviction
    for _ in 0..4 {
        sched.step();
    }
    sched.step();
    assert_eq!(sched.waiting.len(), 1);
}

#[test]
fn evicted_sequence_block_table_cleared() {
    let mut sched = Scheduler::new(4, 4);
    let seq_a = sched.add_request((0..4).map(TokenId).collect());
    let seq_b = sched.add_request((0..4).map(TokenId).collect());
    sched.prefill(seq_a);
    sched.prefill(seq_b);
    for _ in 0..4 {
        sched.step();
    }
    sched.step();
    let evicted_id = *sched.waiting.back().unwrap();
    assert_eq!(sched.sequences[&evicted_id.0].block_table.len(), 0);
}

#[test]
fn evicted_blocks_returned_to_pool() {
    let mut sched = Scheduler::new(4, 4);
    let seq_a = sched.add_request((0..4).map(TokenId).collect());
    let seq_b = sched.add_request((0..4).map(TokenId).collect());
    sched.prefill(seq_a);
    sched.prefill(seq_b);
    for _ in 0..4 {
        sched.step();
    }
    sched.step();
    assert!(sched.running.len() > 0);
}

// --- Scheduler ---

#[test]
fn add_request_enqueues_to_waiting() {
    let mut scheduler = Scheduler::new(8, 2);
    let tokens: Vec<TokenId> = (0..4).map(TokenId).collect();
    scheduler.add_request(tokens);
    assert_eq!(scheduler.waiting.len(), 1);
    assert_eq!(scheduler.running.len(), 0);
}

#[test]
fn prefill_moves_sequence_to_running() {
    let mut scheduler = Scheduler::new(8, 2);
    let tokens: Vec<TokenId> = (0..4).map(TokenId).collect();
    let seq_id = scheduler.add_request(tokens);
    scheduler.prefill(seq_id);
    assert_eq!(scheduler.waiting.len(), 0);
    assert_eq!(scheduler.running.len(), 1);
}

#[test]
fn prefill_allocates_correct_blocks() {
    let mut scheduler = Scheduler::new(8, 2);
    let tokens: Vec<TokenId> = (0..6).map(TokenId).collect();
    let seq_id = scheduler.add_request(tokens);
    scheduler.prefill(seq_id);
    // 6 tokens with block_size=2 -> 3 blocks
    assert_eq!(scheduler.sequences[&seq_id.0].block_table.len(), 3);
}

#[test]
fn multiple_sequences_independent_blocks() {
    let mut scheduler = Scheduler::new(16, 2);
    let seq_a = scheduler.add_request((0..4).map(TokenId).collect());
    let seq_b = scheduler.add_request((0..4).map(TokenId).collect());
    scheduler.prefill(seq_a);
    scheduler.prefill(seq_b);
    // each has 2 blocks, no sharing — 4 total pool blocks used
    assert_eq!(scheduler.sequences[&seq_a.0].block_table.len(), 2);
    assert_eq!(scheduler.sequences[&seq_b.0].block_table.len(), 2);
}

#[test]
fn step_appends_tokens_and_allocates_blocks() {
    let mut scheduler = Scheduler::new(16, 2);
    let seq_id = scheduler.add_request((0..4).map(TokenId).collect());
    scheduler.prefill(seq_id);
    let tokens_before = scheduler.sequences[&seq_id.0].token_ids.len();
    scheduler.step();
    assert_eq!(
        scheduler.sequences[&seq_id.0].token_ids.len(),
        tokens_before + 1
    );
}

// --- Prefix Cache ---

fn make_tokens(ids: &[i32]) -> Vec<TokenId> {
    ids.iter().copied().map(TokenId).collect()
}

#[test]
fn shared_prefix_reuses_blocks() {
    // seq_a prefills [0,1,2,3]; seq_b shares same prefix — should reuse 2 blocks.
    let mut sched = Scheduler::new(8, 2);
    let seq_a = sched.add_request(make_tokens(&[0, 1, 2, 3]));
    let seq_b = sched.add_request(make_tokens(&[0, 1, 2, 3, 4, 5]));
    sched.prefill(seq_a);
    sched.prefill(seq_b);
    // seq_b should have 3 blocks: 2 shared + 1 new
    assert_eq!(sched.sequences[&seq_b.0].block_table.len(), 3);
    // physical blocks: 2 (seq_a) + 1 new (seq_b suffix) = 3
    assert_eq!(sched.pool_used_blocks_physical(), 3);
}

#[test]
fn shared_prefix_increfs_blocks() {
    // The 2 shared blocks must have ref_count == 2.
    let mut sched = Scheduler::new(8, 2);
    let seq_a = sched.add_request(make_tokens(&[0, 1, 2, 3]));
    let seq_b = sched.add_request(make_tokens(&[0, 1, 2, 3]));
    sched.prefill(seq_a);
    sched.prefill(seq_b);
    for &block_id in sched.sequences[&seq_a.0].block_table.blocks() {
        assert_eq!(sched.pool.get_ref_count(block_id), 2);
    }
}

#[test]
fn no_prefix_match_allocates_independently() {
    // Completely different tokens — no sharing, both allocate their own blocks.
    let mut sched = Scheduler::new(8, 2);
    let seq_a = sched.add_request(make_tokens(&[0, 1, 2, 3]));
    let seq_b = sched.add_request(make_tokens(&[10, 11, 12, 13]));
    sched.prefill(seq_a);
    sched.prefill(seq_b);
    assert_eq!(sched.pool_used_blocks_physical(), 4);
}

#[test]
fn prefix_hit_rate_nonzero_after_shared_prefill() {
    let mut sched = Scheduler::new(8, 2);
    let seq_a = sched.add_request(make_tokens(&[0, 1, 2, 3]));
    let seq_b = sched.add_request(make_tokens(&[0, 1, 2, 3]));
    sched.prefill(seq_a);
    sched.prefill(seq_b);
    assert!(hit_rate(&sched.metrics) > 0.0);
}

#[test]
fn hit_rate_zero_with_no_prefix_overlap() {
    let mut sched = Scheduler::new(8, 2);
    let seq_a = sched.add_request(make_tokens(&[0, 1, 2, 3]));
    let seq_b = sched.add_request(make_tokens(&[10, 11, 12, 13]));
    sched.prefill(seq_a);
    sched.prefill(seq_b);
    assert_eq!(hit_rate(&sched.metrics), 0.0);
}

#[test]
fn evicted_block_invalidated_in_prefix_cache() {
    // Pool: 2 blocks, block_size=2. seq_a fills both.
    // step() needs a 3rd block, triggers eviction of seq_a and calls prefix_cache.evict.
    // seq_b with the same tokens should then get 0 prefix hits.
    let mut sched = Scheduler::new(2, 2);
    let seq_a = sched.add_request(make_tokens(&[0, 1, 2, 3]));
    sched.prefill(seq_a);
    sched.step(); // pool full → evicts seq_a, invalidates its cache entries
    assert_eq!(sched.waiting.len(), 1);

    let hits_before = sched.metrics.prefix_hits;
    let seq_b = sched.add_request(make_tokens(&[0, 1, 2, 3]));
    sched.prefill(seq_b);
    assert_eq!(sched.metrics.prefix_hits, hits_before);
}

#[test]
fn partial_prefix_match_only_full_blocks_reused() {
    // block_size=4. Prefix of 6 tokens: only 1 full block (4 tokens) can be cached,
    // the remaining 2 tokens of the second block don't complete a block — not cached.
    let mut sched = Scheduler::new(8, 4);
    let seq_a = sched.add_request(make_tokens(&[0, 1, 2, 3, 4, 5]));
    let seq_b = sched.add_request(make_tokens(&[0, 1, 2, 3, 4, 5, 6, 7]));
    sched.prefill(seq_a);
    sched.prefill(seq_b);
    // seq_b should hit 1 block (tokens 0-3), not 2 (tokens 4-5 were partial in seq_a).
    assert_eq!(sched.metrics.prefix_hits, 4); // 4 tokens from 1 shared block
}

// --- Copy-on-Write ---

#[test]
fn fork_increfs_all_parent_blocks() {
    // parent: 4 tokens → 2 full blocks. After fork, both blocks have ref_count 2.
    let mut sched = Scheduler::new(8, 2);
    let parent = sched.add_request(make_tokens(&[0, 1, 2, 3]));
    sched.prefill(parent);
    let fork_a = sched.fork_sequence(parent);
    let _ = fork_a;
    for &block_id in sched.sequences[&parent.0].block_table.blocks() {
        assert_eq!(sched.pool.get_ref_count(block_id), 2);
    }
}

#[test]
fn fork_appears_in_running() {
    let mut sched = Scheduler::new(8, 2);
    let parent = sched.add_request(make_tokens(&[0, 1, 2, 3]));
    sched.prefill(parent);
    let fork_a = sched.fork_sequence(parent);
    assert!(sched.running.contains(&fork_a));
}

#[test]
fn cow_unshares_last_block_on_write() {
    // parent: 3 tokens (b0 full, b1 partial). fork shares both blocks.
    // After step_cow on fork only: fork's last block should be unshared (rc == 1).
    let mut sched = Scheduler::new(8, 2);
    let parent = sched.add_request(make_tokens(&[0, 1, 2]));
    sched.prefill(parent);
    // Remove parent from running so step_cow only advances the fork.
    let fork_a = sched.fork_sequence(parent);
    sched.running.retain(|&id| id == fork_a);

    sched.step_cow();

    let fork_last = sched.sequences[&fork_a.0].block_table.last_block().unwrap();
    assert_eq!(sched.pool.get_ref_count(fork_last), 1);
}

#[test]
fn cow_sealed_blocks_stay_shared() {
    // b0 is sealed (full) — CoW should not affect it. It stays shared after a step.
    let mut sched = Scheduler::new(8, 2);
    let parent = sched.add_request(make_tokens(&[0, 1, 2]));
    sched.prefill(parent);
    let b0 = sched.sequences[&parent.0].block_table.blocks()[0];
    let fork_a = sched.fork_sequence(parent);
    sched.running.retain(|&id| id == fork_a);

    sched.step_cow();

    assert_eq!(sched.pool.get_ref_count(b0), 2); // parent + fork_a still share b0
}

#[test]
fn multiple_forks_each_get_distinct_last_block() {
    // 3-way fork from a partial-block parent. After step_cow, each ends up with a
    // different last block (two CoW copies + the last holder keeps the original).
    let mut sched = Scheduler::new(16, 2);
    let parent = sched.add_request(make_tokens(&[0, 1, 2]));
    sched.prefill(parent);
    let fork_a = sched.fork_sequence(parent);
    let fork_b = sched.fork_sequence(parent);

    sched.step_cow(); // advances parent, fork_a, fork_b

    let last_blocks: std::collections::HashSet<_> = [parent, fork_a, fork_b]
        .iter()
        .map(|id| sched.sequences[&id.0].block_table.last_block().unwrap())
        .collect();
    assert_eq!(last_blocks.len(), 3); // all distinct
}

#[test]
fn cow_noop_when_block_already_exclusive() {
    // If last block already has ref_count == 1, ensure_unshared should not allocate.
    let mut sched = Scheduler::new(8, 2);
    let parent = sched.add_request(make_tokens(&[0, 1, 2]));
    sched.prefill(parent);
    let b1_before = sched.sequences[&parent.0].block_table.last_block().unwrap();
    // No fork — parent owns b1 exclusively.
    sched.step_cow();
    let b1_after = sched.sequences[&parent.0].block_table.last_block().unwrap();
    assert_eq!(b1_before, b1_after); // same block, no copy made
}

#[test]
fn fork_then_step_cow_does_not_corrupt_parent_blocks() {
    // Parent and fork decode one token each. Parent's block table should be unchanged
    // except for its own last-block copy; fork's table is independent.
    let mut sched = Scheduler::new(16, 2);
    let parent = sched.add_request(make_tokens(&[0, 1, 2, 3])); // 2 full blocks
    sched.prefill(parent);
    let b0_parent = sched.sequences[&parent.0].block_table.blocks()[0];
    let fork_a = sched.fork_sequence(parent);
    let _ = fork_a;
    sched.step_cow();
    // b0 is sealed and must still match in both tables
    assert_eq!(sched.sequences[&parent.0].block_table.blocks()[0], b0_parent);
    assert_eq!(sched.sequences[&fork_a.0].block_table.blocks()[0], b0_parent);
}
