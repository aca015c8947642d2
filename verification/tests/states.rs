use kv_cache_scheduler::block_pool::{BlockID, BlockPoolConfig};
use kv_cache_scheduler::sequence::{Scheduler, Sequence, SequenceId, SequenceState, TokenId};

fn tokens(ids: &[i32]) -> Vec<TokenId> {
    ids.iter().copied().map(TokenId).collect()
}

fn blocks(sched: &Scheduler, id: SequenceId) -> Vec<u32> {
    sched.sequences[&id.0].block_table.blocks().iter().map(|b| b.0).collect()
}

fn used(sched: &Scheduler, num_blocks: u32) -> usize {
    (0..num_blocks).filter(|&i| !sched.pool.is_free(BlockID(i))).count()
}

#[test]
fn a_new_sequence_waits_without_blocks() {
    let seq = Sequence::new(SequenceId(3), tokens(&[1, 2]), 4);
    assert_eq!(seq.id, SequenceId(3));
    assert_eq!(seq.token_ids, tokens(&[1, 2]));
    assert_eq!(seq.block_table.len(), 0);
    assert!(matches!(seq.state, SequenceState::Waiting));
}

#[test]
fn with_config_is_new() {
    let sched = Scheduler::with_config(BlockPoolConfig::new(128, 16));
    assert_eq!(sched.pool.available(), 128);
    assert_eq!(sched.block_size, 16);
    assert_eq!(sched.prefix_cache.block_size, 16);
    assert_eq!(sched.next_id, 0);
    assert_eq!(sched.metrics.prefix_total, 0);
}

#[test]
fn new_ids_are_fresh() {
    let mut sched = Scheduler::new(8, 2);
    let a = sched.add_request(tokens(&[1]));
    let b = sched.add_request(tokens(&[1]));
    sched.prefill(a);
    let c = sched.fork_sequence(a);
    assert_eq!((a, b, c), (SequenceId(0), SequenceId(1), SequenceId(2)));
    assert_eq!(sched.sequences.len(), 3);
}

#[test]
fn a_prefill_covers_the_prompt() {
    let mut sched = Scheduler::new(8, 2);
    let a = sched.add_request(tokens(&[0, 1, 2, 3, 4]));
    sched.prefill(a);
    assert_eq!(blocks(&sched, a), vec![7, 6, 5]);
    assert_eq!(sched.sequences[&a.0].block_table.num_tokens(), 5);
    assert!(matches!(sched.sequences[&a.0].state, SequenceState::Decoding));
    assert_eq!(sched.metrics.prefix_total, 5);
    assert_eq!(sched.metrics.prefix_hits, 0);
    assert_eq!(sched.pool.total_allocs, 3);
    assert_eq!(sched.running, vec![a]);
}

#[test]
fn a_second_prefill_reuses_whole_blocks() {
    let mut sched = Scheduler::new(8, 2);
    let a = sched.add_request(tokens(&[0, 1, 2, 3, 4]));
    let b = sched.add_request(tokens(&[0, 1, 2, 3, 4]));
    sched.prefill(a);
    sched.prefill(b);
    assert_eq!(blocks(&sched, b), vec![7, 6, 4]);
    assert_eq!(sched.metrics.prefix_hits, 4);
    assert_eq!(sched.metrics.prefix_total, 10);
    assert_eq!(sched.pool.total_allocs, 4);
    assert_eq!(sched.pool_used_blocks(), 6);
    assert_eq!(sched.pool_used_blocks_physical(), 4);
    assert_eq!(sched.pool.available(), 4);
    let order: Vec<u32> = sched.eviction.blocks_map.keys().copied().collect();
    assert_eq!(order, vec![5, 7, 6, 4]);
}

#[test]
fn blocks_are_freed_with_their_last_sequence() {
    let mut sched = Scheduler::new(8, 2);
    let a = sched.add_request(tokens(&[0, 1, 2]));
    let b = sched.add_request(tokens(&[0, 1, 5]));
    sched.prefill(a);
    sched.prefill(b);
    assert_eq!(blocks(&sched, a), vec![7, 6]);
    assert_eq!(blocks(&sched, b), vec![7, 5]);
    sched.finish_sequence(a);
    assert!(!sched.pool.is_free(BlockID(7)));
    assert!(sched.pool.is_free(BlockID(6)));
    assert!(matches!(sched.sequences[&a.0].state, SequenceState::Finished));
    assert_eq!(sched.running, vec![b]);
    sched.finish_sequence(b);
    assert_eq!(sched.pool.available(), 8);
    assert_eq!(used(&sched, 8), 0);
    assert_eq!(sched.pool_used_blocks_physical(), 0);
}

#[test]
fn used_blocks_and_free_blocks_make_up_the_pool() {
    let mut sched = Scheduler::new(12, 2);
    let a = sched.add_request(tokens(&[0, 1, 2, 3, 4]));
    let b = sched.add_request(tokens(&[0, 1, 2, 3, 9, 9]));
    sched.prefill(a);
    sched.prefill(b);
    let c = sched.fork_sequence(a);
    for _ in 0..3 {
        sched.step_cow();
        assert_eq!(sched.pool_used_blocks_physical(), used(&sched, 12));
        assert_eq!(sched.pool_used_blocks_physical() + sched.pool.available(), 12);
        assert!(sched.pool_used_blocks_physical() <= sched.pool_used_blocks());
    }
    sched.finish_sequence(c);
    assert_eq!(sched.pool_used_blocks_physical() + sched.pool.available(), 12);
}

#[test]
fn finishing_a_fork_restores_the_pool() {
    let mut sched = Scheduler::new(8, 2);
    let a = sched.add_request(tokens(&[0, 1, 2]));
    sched.prefill(a);
    let before = sched.pool.available();
    let f = sched.fork_sequence(a);
    assert_eq!(blocks(&sched, f), blocks(&sched, a));
    assert_eq!(sched.sequences[&f.0].token_ids, tokens(&[0, 1, 2]));
    sched.finish_sequence(f);
    assert_eq!(sched.pool.available(), before);
    assert_eq!(sched.pool.get_ref_count(BlockID(7)), 1);
    assert_eq!(sched.pool.get_ref_count(BlockID(6)), 1);
}

#[test]
fn a_step_appends_one_token_to_each_running_sequence() {
    let mut sched = Scheduler::new(8, 2);
    let a = sched.add_request(tokens(&[0, 1]));
    let b = sched.add_request(tokens(&[7]));
    let c = sched.add_request(tokens(&[8]));
    sched.prefill(a);
    sched.prefill(b);
    sched.step();
    assert_eq!(sched.sequences[&a.0].token_ids, tokens(&[0, 1, 0]));
    assert_eq!(sched.sequences[&b.0].token_ids, tokens(&[7, 0]));
    assert_eq!(sched.sequences[&c.0].token_ids, tokens(&[8]));
    assert_eq!(sched.sequences[&a.0].block_table.num_tokens(), 3);
    assert_eq!(blocks(&sched, a), vec![7, 5]);
    assert_eq!(blocks(&sched, b), vec![6]);
    assert_eq!(sched.metrics.blocks_evicted, 0);
}

#[test]
fn a_copy_on_write_step_leaves_each_last_block_to_one_sequence() {
    let mut sched = Scheduler::new(16, 2);
    let a = sched.add_request(tokens(&[0, 1, 2]));
    sched.prefill(a);
    let b = sched.fork_sequence(a);
    let c = sched.fork_sequence(b);
    sched.step_cow();
    assert_eq!(blocks(&sched, a), vec![15, 13]);
    assert_eq!(blocks(&sched, b), vec![15, 12]);
    assert_eq!(blocks(&sched, c), vec![15, 14]);
    for id in [a, b, c] {
        let last = sched.sequences[&id.0].block_table.last_block().unwrap();
        assert_eq!(sched.pool.get_ref_count(last), 1);
    }
    assert_eq!(sched.pool.get_ref_count(BlockID(15)), 3);
}

#[test]
fn preemption_frees_blocks_and_starts_over() {
    let mut sched = Scheduler::new(3, 2);
    let a = sched.add_request(tokens(&[0, 1, 2, 3]));
    let b = sched.add_request(tokens(&[9]));
    sched.prefill(a);
    sched.prefill(b);
    assert_eq!(sched.pool.available(), 0);
    sched.handle_pool_full();
    assert_eq!(sched.pool.available(), 2);
    assert_eq!(sched.metrics.blocks_evicted, 1);
    assert_eq!(sched.waiting.iter().copied().collect::<Vec<_>>(), vec![a]);
    assert_eq!(sched.running, vec![b]);
    assert_eq!(sched.sequences[&a.0].block_table.num_tokens(), 0);
    assert!(matches!(sched.sequences[&a.0].state, SequenceState::Waiting));
    assert_eq!(sched.prefix_cache.match_prefix(&tokens(&[0, 1, 2, 3])), (2, vec![]));
    // The preempted sequence can be prefilled again.
    sched.prefill(a);
    assert_eq!(sched.running, vec![b, a]);
    assert!(sched.waiting.is_empty());
    assert_eq!(sched.sequences[&a.0].block_table.num_tokens(), 4);
}

#[test]
fn a_full_pool_preempts_the_least_recently_used_sequence() {
    let mut sched = Scheduler::new(2, 1);
    let a = sched.add_request(tokens(&[1]));
    let b = sched.add_request(tokens(&[2]));
    sched.prefill(a);
    sched.prefill(b);
    // Sequence a needs a block, and its own is the least recently used one: it is preempted and
    // b takes the freed block.
    sched.step();
    assert_eq!(sched.running, vec![b]);
    assert_eq!(sched.sequences[&a.0].token_ids, tokens(&[1, 0]));
    assert_eq!(sched.sequences[&a.0].block_table.len(), 0);
    assert_eq!(sched.sequences[&b.0].block_table.len(), 2);
    assert_eq!(sched.metrics.blocks_evicted, 1);
}

#[test]
fn equal_runs_have_equal_outcomes() {
    let run = || {
        let mut sched = Scheduler::new(6, 2);
        for i in 0..4 {
            let id = sched.add_request(tokens(&[i, i]));
            sched.prefill(id);
        }
        for _ in 0..6 {
            sched.step();
        }
        let tables: Vec<Vec<u32>> = (0..4).map(|i| blocks(&sched, SequenceId(i))).collect();
        (tables, sched.running.clone(), sched.metrics.blocks_evicted)
    };
    let first = run();
    for _ in 0..5 {
        assert_eq!(run(), first);
    }
}

#[test]
fn the_policy_knows_allocated_blocks_only() {
    let mut sched = Scheduler::new(8, 2);
    let a = sched.add_request(tokens(&[0, 1, 2]));
    let b = sched.add_request(tokens(&[5]));
    sched.prefill(a);
    sched.prefill(b);
    sched.step();
    sched.finish_sequence(a);
    for key in sched.eviction.blocks_map.keys() {
        assert!(!sched.pool.is_free(BlockID(*key)));
    }
    assert_eq!(sched.eviction.blocks_map.len(), 1);
}

#[test]
fn freed_blocks_are_not_reused_from_the_prefix_cache() {
    let mut sched = Scheduler::new(4, 2);
    let a = sched.add_request(tokens(&[0, 1, 2, 3]));
    sched.prefill(a);
    sched.finish_sequence(a);
    assert_eq!(sched.prefix_cache.match_prefix(&tokens(&[0, 1, 2, 3])), (2, vec![]));
    let b = sched.add_request(tokens(&[0, 1, 2, 3]));
    sched.prefill(b);
    assert_eq!(sched.metrics.prefix_hits, 0);
    assert_eq!(sched.pool.total_allocs, 4);
    assert_eq!(sched.pool.available(), 2);
    sched.finish_sequence(b);
    assert_eq!(sched.pool.available(), 4);
    let mut seen: Vec<u32> = Vec::new();
    while let Some(block) = sched.pool.allocate() {
        assert!(!seen.contains(&block.0));
        seen.push(block.0);
    }
    assert_eq!(seen.len(), 4);
}

#[test]
fn a_held_prefix_keeps_its_hits_when_a_sequence_finishes() {
    let mut sched = Scheduler::new(8, 2);
    let a = sched.add_request(tokens(&[0, 1, 2, 3]));
    let b = sched.add_request(tokens(&[0, 1, 9, 9]));
    sched.prefill(a);
    sched.prefill(b);
    sched.finish_sequence(a);
    // The first block is still held by b; the second one was a's alone.
    assert_eq!(
        sched.prefix_cache.match_prefix(&tokens(&[0, 1, 2, 3])),
        (4, vec![BlockID(7)])
    );
    let c = sched.add_request(tokens(&[0, 1, 2, 3]));
    sched.prefill(c);
    assert_eq!(sched.metrics.prefix_hits, 4);
    assert_eq!(sched.pool.get_ref_count(BlockID(7)), 2);
}

#[test]
fn the_last_holder_of_shared_blocks_can_be_preempted() {
    let mut sched = Scheduler::new(2, 2);
    let a = sched.add_request(tokens(&[0, 1, 2, 3]));
    let b = sched.add_request(tokens(&[0, 1, 2, 3]));
    sched.prefill(a);
    sched.prefill(b);
    sched.finish_sequence(a);
    assert_eq!(sched.eviction.blocks_map.len(), 2);
    sched.handle_pool_full();
    assert_eq!(sched.waiting.iter().copied().collect::<Vec<_>>(), vec![b]);
    assert!(sched.running.is_empty());
    assert_eq!(sched.pool.available(), 2);
    assert_eq!(sched.metrics.blocks_evicted, 1);
    assert_eq!(sched.eviction.blocks_map.len(), 0);
}

#[test]
fn preemption_keeps_the_order_of_blocks_that_stay_held() {
    let mut sched = Scheduler::new(4, 2);
    let a = sched.add_request(tokens(&[0, 1, 2]));
    let b = sched.add_request(tokens(&[0, 1, 5]));
    sched.prefill(a);
    sched.prefill(b);
    // Block 3 is shared, so block 2 of a is the victim.
    sched.handle_pool_full();
    assert_eq!(sched.running, vec![b]);
    let order: Vec<u32> = sched.eviction.blocks_map.keys().copied().collect();
    assert_eq!(order, vec![3, 1]);
    assert_eq!(sched.pool.get_ref_count(BlockID(3)), 1);
    sched.handle_pool_full();
    assert_eq!(sched.pool.available(), 4);
    assert_eq!(sched.waiting.iter().copied().collect::<Vec<_>>(), vec![a, b]);
}

#[test]
fn parent_and_fork_are_both_running() {
    let mut sched = Scheduler::new(8, 2);
    let a = sched.add_request(tokens(&[0, 1]));
    let b = sched.add_request(tokens(&[5]));
    sched.prefill(b);
    let f = sched.fork_sequence(a);
    assert_eq!(sched.running, vec![b, a, f]);
    assert!(sched.waiting.is_empty());
    assert!(matches!(sched.sequences[&a.0].state, SequenceState::Decoding));
    assert!(matches!(sched.sequences[&f.0].state, SequenceState::Decoding));
    let g = sched.fork_sequence(b);
    assert_eq!(sched.running, vec![b, a, f, g]);
}

#[test]
fn a_finished_parent_decodes_again_with_its_fork() {
    let mut sched = Scheduler::new(8, 2);
    let a = sched.add_request(tokens(&[0, 1]));
    let b = sched.add_request(tokens(&[7]));
    sched.prefill(a);
    sched.finish_sequence(a);
    let f = sched.fork_sequence(a);
    assert_eq!(sched.running, vec![a, f]);
    assert_eq!(sched.waiting.iter().copied().collect::<Vec<_>>(), vec![b]);
    assert!(matches!(sched.sequences[&a.0].state, SequenceState::Decoding));
}

#[test]
fn a_step_takes_blocks_at_boundaries_only() {
    let mut sched = Scheduler::new(5, 2);
    let ids: Vec<SequenceId> = (0..4)
        .map(|i| {
            // Sequence 0 fills its block, the others do not.
            let prompt = if i == 0 { tokens(&[0, 0]) } else { tokens(&[i]) };
            let id = sched.add_request(prompt);
            sched.prefill(id);
            id
        })
        .collect();
    assert_eq!(sched.pool.available(), 1);
    sched.step();
    assert_eq!(sched.pool.available(), 0);
    assert_eq!(sched.pool.total_allocs(), 5);
    assert_eq!(sched.metrics.blocks_evicted, 0);
    assert_eq!(sched.running, ids);
}

#[test]
fn a_full_pool_without_boundaries_can_step() {
    let mut sched = Scheduler::new(1, 2);
    let a = sched.add_request(tokens(&[0]));
    sched.prefill(a);
    let f = sched.fork_sequence(a);
    // No block is free and none has a single reference, but none is needed.
    sched.step();
    assert_eq!(sched.sequences[&a.0].block_table.num_tokens(), 2);
    assert_eq!(sched.sequences[&f.0].block_table.num_tokens(), 2);
}

#[test]
fn slots_are_blocks_where_nothing_is_shared() {
    let mut sched = Scheduler::new(8, 2);
    let a = sched.add_request(tokens(&[0, 1, 2]));
    let b = sched.add_request(tokens(&[7, 8, 9]));
    sched.prefill(a);
    sched.prefill(b);
    assert_eq!(sched.pool_used_blocks(), 4);
    assert_eq!(sched.pool_used_blocks_physical(), 4);
    let f = sched.fork_sequence(a);
    assert_eq!(sched.pool_used_blocks(), 6);
    assert_eq!(sched.pool_used_blocks_physical(), 4);
    sched.finish_sequence(f);
    assert_eq!(sched.pool_used_blocks(), 4);
    assert_eq!(sched.pool_used_blocks_physical(), 4);
}

#[test]
fn an_empty_prompt_takes_no_block() {
    let mut sched = Scheduler::new(2, 0);
    let a = sched.add_request(vec![]);
    sched.prefill(a);
    assert_eq!(sched.running, vec![a]);
    assert_eq!(sched.pool.available(), 2);
    assert_eq!(sched.sequences[&a.0].block_table.len(), 0);
}

#[test]
fn a_sequence_prefilled_twice_runs_twice() {
    let mut sched = Scheduler::new(8, 2);
    let a = sched.add_request(tokens(&[0, 1, 2]));
    sched.prefill(a);
    sched.prefill(a);
    assert_eq!(sched.running, vec![a, a]);
    // The second time the first block is reused and the rest goes behind it.
    assert_eq!(blocks(&sched, a), vec![7, 6, 7]);
    assert_eq!(sched.sequences[&a.0].block_table.num_tokens(), 6);
    sched.step();
    assert_eq!(sched.sequences[&a.0].token_ids, tokens(&[0, 1, 2, 0, 0]));
}
