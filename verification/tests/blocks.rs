use kv_cache_scheduler::block_pool::{BlockID, BlockPool, BlockPoolConfig};
use kv_cache_scheduler::block_table::BlockTable;
use kv_cache_scheduler::eviction::{EvictionPolicy, LRUEviction};
use kv_cache_scheduler::prefix_cache::PrefixCache;
use kv_cache_scheduler::sequence::TokenId;

fn tokens(ids: &[i32]) -> Vec<TokenId> {
    ids.iter().copied().map(TokenId).collect()
}

fn ids(blocks: &[BlockID]) -> Vec<u32> {
    blocks.iter().map(|b| b.0).collect()
}

#[test]
fn config_keeps_its_settings() {
    let config = BlockPoolConfig::new(128, 16);
    assert_eq!(config.num_blocks, 128);
    assert_eq!(config.block_size, 16);
}

#[test]
fn blocks_come_from_the_back_and_return_to_the_front() {
    let mut pool = BlockPool::new(3);
    assert_eq!(pool.available(), 3);
    assert_eq!(pool.allocate(), Some(BlockID(2)));
    assert_eq!(pool.allocate(), Some(BlockID(1)));
    pool.decref(BlockID(2));
    // Block 2 stands before block 0 now, so block 0 is next.
    assert_eq!(pool.allocate(), Some(BlockID(0)));
    assert_eq!(pool.allocate(), Some(BlockID(2)));
    assert_eq!(pool.allocate(), None);
    assert_eq!(pool.total_allocs, 4);
}

#[test]
fn free_and_used_blocks_make_up_the_pool() {
    let mut pool = BlockPool::new(5);
    let a = pool.allocate().unwrap();
    let b = pool.allocate().unwrap();
    pool.incref(b);
    let used = (0..5).filter(|&i| !pool.is_free(BlockID(i))).count();
    assert_eq!(used, 2);
    assert_eq!(used + pool.available(), 5);
    pool.decref(b);
    pool.decref(a);
    assert_eq!(pool.available(), 4);
    assert_eq!(pool.get_ref_count(b), 1);
}

#[test]
fn a_shared_block_is_freed_with_its_last_reference_only() {
    let mut pool = BlockPool::new(2);
    let b = pool.allocate().unwrap();
    pool.incref(b);
    pool.decref(b);
    assert_eq!(pool.available(), 1);
    assert_eq!(pool.get_ref_count(b), 1);
    pool.decref(b);
    assert_eq!(pool.available(), 2);
}

#[test]
fn allocated_blocks_are_distinct() {
    let mut pool = BlockPool::new(4);
    let mut seen: Vec<u32> = Vec::new();
    while let Some(b) = pool.allocate() {
        assert_eq!(pool.get_ref_count(b), 1);
        assert!(!seen.contains(&b.0));
        seen.push(b.0);
    }
    assert_eq!(seen, vec![3, 2, 1, 0]);
}

#[test]
fn every_token_has_its_place() {
    let mut pool = BlockPool::new(8);
    let mut table = BlockTable::new(3);
    for _ in 0..7 {
        table.append_token(&mut pool).unwrap();
    }
    assert_eq!(table.num_tokens(), 7);
    assert_eq!(ids(table.blocks()), vec![7, 6, 5]);
    assert_eq!(table.logical_to_physical(0), (BlockID(7), 0));
    assert_eq!(table.logical_to_physical(2), (BlockID(7), 2));
    assert_eq!(table.logical_to_physical(3), (BlockID(6), 0));
    assert_eq!(table.logical_to_physical(6), (BlockID(5), 0));
    // The unused rest of the last block has a place as well.
    assert_eq!(table.logical_to_physical(8), (BlockID(5), 2));
}

#[test]
fn appending_keeps_earlier_places() {
    let mut pool = BlockPool::new(8);
    let mut table = BlockTable::new(2);
    for _ in 0..3 {
        table.append_token(&mut pool).unwrap();
    }
    let before: Vec<(BlockID, usize)> = (0..3).map(|i| table.logical_to_physical(i)).collect();
    table.append_token(&mut pool).unwrap();
    table.append_token_cow(&mut pool).unwrap();
    let after: Vec<(BlockID, usize)> = (0..3).map(|i| table.logical_to_physical(i)).collect();
    assert_eq!(before, after);
}

#[test]
fn failed_appends_change_nothing() {
    let mut pool = BlockPool::new(1);
    let mut table = BlockTable::new(1);
    table.append_token(&mut pool).unwrap();
    assert!(table.append_token(&mut pool).is_err());
    assert!(table.append_token_cow(&mut pool).is_err());
    assert_eq!(table.num_tokens(), 1);
    assert_eq!(table.len(), 1);
    assert_eq!(pool.total_allocs, 1);
}

#[test]
fn copy_on_write_needs_a_free_block() {
    let mut pool = BlockPool::new(1);
    let mut table = BlockTable::new(2);
    table.append_token(&mut pool).unwrap();
    let mut fork = table.fork(&mut pool);
    assert!(fork.append_token_cow(&mut pool).is_err());
    assert!(fork.ensure_unshared(0, &mut pool).is_err());
    assert_eq!(fork.num_tokens(), 1);
    assert_eq!(pool.get_ref_count(BlockID(0)), 2);
    // Without copy-on-write the shared block is written to.
    assert!(fork.append_token(&mut pool).is_ok());
    assert_eq!(fork.num_tokens(), 2);
}

#[test]
fn a_private_copy_is_made_once() {
    let mut pool = BlockPool::new(4);
    let mut table = BlockTable::new(4);
    table.append_token(&mut pool).unwrap();
    let mut fork = table.fork(&mut pool);
    let copy = fork.ensure_unshared(0, &mut pool).unwrap();
    assert_eq!(copy, BlockID(2));
    assert_eq!(pool.get_ref_count(BlockID(3)), 1);
    assert_eq!(pool.get_ref_count(copy), 1);
    assert_eq!(fork.ensure_unshared(0, &mut pool).unwrap(), copy);
    assert_eq!(table.ensure_unshared(0, &mut pool).unwrap(), BlockID(3));
    assert_eq!(pool.total_allocs, 2);
}

#[test]
fn a_copy_on_write_append_writes_alone() {
    let mut pool = BlockPool::new(4);
    let mut table = BlockTable::new(2);
    for _ in 0..3 {
        table.append_token(&mut pool).unwrap();
    }
    let mut fork = table.fork(&mut pool);
    fork.append_token_cow(&mut pool).unwrap();
    assert_eq!(ids(fork.blocks()), vec![3, 1]);
    assert_eq!(ids(table.blocks()), vec![3, 2]);
    assert_eq!(pool.get_ref_count(fork.last_block().unwrap()), 1);
    assert_eq!(pool.get_ref_count(table.last_block().unwrap()), 1);
    assert_eq!(pool.get_ref_count(BlockID(3)), 2);
}

#[test]
fn giving_up_a_fork_undoes_it() {
    let mut pool = BlockPool::new(4);
    let mut table = BlockTable::new(2);
    for _ in 0..4 {
        table.append_token(&mut pool).unwrap();
    }
    let mut fork = table.fork(&mut pool);
    for &b in fork.blocks() {
        pool.decref(b);
    }
    fork.clear();
    assert_eq!(fork.len(), 0);
    assert_eq!(fork.num_tokens(), 0);
    assert_eq!(fork.last_block(), None);
    assert_eq!(pool.available(), 2);
    for &b in table.blocks() {
        assert_eq!(pool.get_ref_count(b), 1);
    }
    assert_eq!(pool.allocate(), Some(BlockID(1)));
}

#[test]
fn full_blocks_count_whole() {
    let mut pool = BlockPool::new(4);
    let mut table = BlockTable::new(4);
    table.push_full_block(BlockID(2));
    assert_eq!(table.num_tokens(), 4);
    assert!(table.is_last_block_full());
    table.append_token(&mut pool).unwrap();
    assert_eq!(ids(table.blocks()), vec![2, 3]);
    assert!(!table.is_last_block_full());
}

#[test]
fn a_table_without_block_size_holds_no_tokens() {
    let mut table = BlockTable::new(0);
    assert!(!table.is_last_block_full());
    table.push_full_block(BlockID(0));
    assert_eq!(table.num_tokens(), 0);
    assert_eq!(table.len(), 1);
}

#[test]
fn entered_prompts_are_found_again() {
    let mut cache = PrefixCache::new(2);
    let prompt = tokens(&[1, 2, 3, 4, 5]);
    cache.insert(&prompt, &[BlockID(7), BlockID(6), BlockID(5)]);
    // The third block is not whole.
    let (matched, blocks) = cache.match_prefix(&prompt);
    assert_eq!(matched, 5);
    assert_eq!(ids(&blocks), vec![7, 6]);
    // A prompt that shares three tokens reuses one block.
    let (matched, blocks) = cache.match_prefix(&tokens(&[1, 2, 3, 9, 9]));
    assert_eq!(matched, 3);
    assert_eq!(ids(&blocks), vec![7]);
    // A longer prompt reuses what is there.
    let (matched, blocks) = cache.match_prefix(&tokens(&[1, 2, 3, 4, 5, 6, 7]));
    assert_eq!(matched, 5);
    assert_eq!(ids(&blocks), vec![7, 6]);
    let (matched, blocks) = cache.match_prefix(&tokens(&[2, 1]));
    assert_eq!(matched, 0);
    assert!(blocks.is_empty());
    let (matched, blocks) = cache.match_prefix(&[]);
    assert_eq!(matched, 0);
    assert!(blocks.is_empty());
}

#[test]
fn a_match_stops_at_the_first_forgotten_block() {
    let mut cache = PrefixCache::new(2);
    let prompt = tokens(&[1, 2, 3, 4, 5, 6]);
    cache.insert(&prompt, &[BlockID(0), BlockID(1), BlockID(2)]);
    cache.evict(BlockID(1));
    let (matched, blocks) = cache.match_prefix(&prompt);
    assert_eq!(matched, 4);
    assert_eq!(ids(&blocks), vec![0]);
    // The other blocks are still there.
    cache.insert(&prompt[..4], &[BlockID(0), BlockID(9)]);
    let (matched, blocks) = cache.match_prefix(&prompt);
    assert_eq!(matched, 6);
    assert_eq!(ids(&blocks), vec![0, 9, 2]);
}

#[test]
fn a_prefix_of_a_prompt_matches_its_part() {
    let mut cache = PrefixCache::new(2);
    let prompt = tokens(&[1, 2, 3, 4, 5]);
    cache.insert(&prompt, &[BlockID(7), BlockID(6), BlockID(5)]);
    let expected = [
        (0, vec![]),
        (1, vec![]),
        (2, vec![BlockID(7)]),
        (3, vec![BlockID(7)]),
        (4, vec![BlockID(7), BlockID(6)]),
        (5, vec![BlockID(7), BlockID(6)]),
    ];
    for n in 0..6 {
        assert_eq!(cache.match_prefix(&prompt[..n]), expected[n]);
    }
}

#[test]
fn a_forgotten_block_cuts_the_match_before_it() {
    let mut cache = PrefixCache::new(1);
    let prompt = tokens(&[1, 2, 3, 4]);
    cache.insert(&prompt, &[BlockID(0), BlockID(1), BlockID(2), BlockID(1)]);
    cache.evict(BlockID(9));
    assert_eq!(cache.match_prefix(&prompt).0, 4);
    cache.evict(BlockID(1));
    assert_eq!(cache.match_prefix(&prompt), (2, vec![BlockID(0)]));
}

#[test]
fn only_the_last_block_matters_to_a_copy_on_write_append() {
    // The first block of the table is not one of the pool.
    let mut pool = BlockPool::new(2);
    let mut table = BlockTable::new(2);
    table.push_full_block(BlockID(40));
    table.append_token_cow(&mut pool).unwrap();
    table.append_token_cow(&mut pool).unwrap();
    assert_eq!(ids(table.blocks()), vec![40, 1]);
    assert_eq!(table.num_tokens(), 4);
}

#[test]
fn forgetting_reaches_every_path() {
    let mut cache = PrefixCache::new(1);
    cache.insert(&tokens(&[1, 2]), &[BlockID(4), BlockID(5)]);
    cache.insert(&tokens(&[3, 2]), &[BlockID(5), BlockID(4)]);
    cache.evict(BlockID(5));
    assert_eq!(cache.match_prefix(&tokens(&[1, 2])), (2, vec![BlockID(4)]));
    assert_eq!(cache.match_prefix(&tokens(&[3, 2])), (1, vec![]));
    cache.evict(BlockID(4));
    assert_eq!(cache.match_prefix(&tokens(&[1, 2])), (1, vec![]));
}

#[test]
fn a_later_prompt_replaces_blocks_on_its_path_only() {
    let mut cache = PrefixCache::new(2);
    cache.insert(&tokens(&[1, 2, 3, 4]), &[BlockID(0), BlockID(1)]);
    cache.insert(&tokens(&[1, 2, 5, 6]), &[BlockID(2), BlockID(3)]);
    assert_eq!(cache.match_prefix(&tokens(&[1, 2, 3, 4])), (4, vec![BlockID(2), BlockID(1)]));
    assert_eq!(cache.match_prefix(&tokens(&[1, 2, 5, 6])), (4, vec![BlockID(2), BlockID(3)]));
}

#[test]
fn long_prompts_are_walked_without_recursion() {
    let mut cache = PrefixCache::new(100);
    let prompt: Vec<TokenId> = (0..2_000).map(TokenId).collect();
    let blocks: Vec<BlockID> = (0..20).map(BlockID).collect();
    cache.insert(&prompt, &blocks);
    let (matched, found) = cache.match_prefix(&prompt);
    assert_eq!(matched, 2_000);
    assert_eq!(found, blocks);
}

#[test]
fn the_victim_is_the_least_recently_accessed_block() {
    let mut pool = BlockPool::new(4);
    let mut policy = LRUEviction::new();
    assert_eq!(policy.select_victim(&pool), None);
    let blocks: Vec<BlockID> = (0..3).map(|_| pool.allocate().unwrap()).collect();
    assert_eq!(ids(&blocks), vec![3, 2, 1]);
    for b in &blocks {
        policy.on_access(b);
    }
    assert_eq!(policy.select_victim(&pool), Some(BlockID(3)));
    // An access moves a block behind the others.
    policy.on_access(&BlockID(3));
    assert_eq!(policy.select_victim(&pool), Some(BlockID(2)));
    // A shared block is passed over.
    pool.incref(BlockID(2));
    assert_eq!(policy.select_victim(&pool), Some(BlockID(1)));
    policy.on_free(&BlockID(1));
    assert_eq!(policy.select_victim(&pool), Some(BlockID(3)));
    policy.on_free(&BlockID(3));
    assert_eq!(policy.select_victim(&pool), None);
    pool.decref(BlockID(2));
    assert_eq!(policy.select_victim(&pool), Some(BlockID(2)));
}

#[test]
fn accesses_are_tracked_once() {
    let mut policy = LRUEviction::new();
    for i in [4, 5, 6, 4, 4, 5] {
        policy.on_access(&BlockID(i));
    }
    let order: Vec<u32> = policy.blocks_map.keys().copied().collect();
    assert_eq!(order, vec![6, 4, 5]);
    policy.on_free(&BlockID(9));
    assert_eq!(policy.blocks_map.len(), 3);
}
