//! What the scheduler's operations do, part by part: what changes, how, and that nothing else does.
use crate::block_pool::BlockID;
use crate::block_table::TableView;
use crate::effects::{carried, carries};
use crate::order::{before, refreshed, thinned};
use crate::schedule::{SchedulerView, SequenceView};
use crate::sequence::{Scheduler, SequenceId, SequenceState, TokenId};
use vstd::prelude::*;

verus! {

/// Every sequence but `k` is known or not, and is what it was, as before.
pub open spec fn only_sequence(state: SchedulerView, post: SchedulerView, k: i32) -> bool {
    forall|j: i32|
        j != k ==> {
            &&& #[trigger] post.sequences.contains_key(j) <==> state.sequences.contains_key(j)
            &&& state.sequences.contains_key(j) ==> post.sequences[j] == state.sequences[j]
        }
}

/// The counters of reused, submitted and preempted have moved by so much.
pub open spec fn counted(
    state: SchedulerView,
    post: SchedulerView,
    hits: nat,
    submitted: nat,
    preempted: nat,
) -> bool {
    &&& post.prefix_hits == state.prefix_hits + hits
    &&& post.prefix_total == state.prefix_total + submitted
    &&& post.blocks_evicted == state.blocks_evicted + preempted
    &&& post.block_size == state.block_size
}

/// `id` has been taken out of a queue, and no other: the others stay, as often as before and in
/// their order.
pub open spec fn left(queue: Seq<SequenceId>, id: SequenceId, post: Seq<SequenceId>) -> bool {
    &&& thinned(queue, Set::empty().insert(id), post)
    &&& forall|i: int|
        queue.no_duplicates() && 0 <= i < queue.len() && #[trigger] queue[i] == id ==> post
            == queue.remove(i)
    &&& !queue.contains(id) ==> post == queue
}

/// `id` has been put behind a queue: all who were there stand before it, in their order.
pub open spec fn joined_behind(queue: Seq<SequenceId>, id: SequenceId, post: Seq<SequenceId>) -> bool {
    &&& post.len() == queue.len() + 1
    &&& post[queue.len() as int] == id
    &&& forall|i: int| 0 <= i < queue.len() ==> #[trigger] post[i] == queue[i]
}

// ---------------------------------------------------------------------------------------------
// What is seen of a scheduler
// ---------------------------------------------------------------------------------------------

/// The view of a scheduler shows every field as it is.
pub proof fn law_the_view_shows_all(s: Scheduler, k: i32)
    ensures
        s@.pool == s.pool@,
        s@.waiting == s.waiting@,
        s@.running == s.running@,
        s@.block_size == s.block_size,
        s@.next_id == s.next_id,
        s@.cache == s.prefix_cache@,
        s@.cache.block_size == s.prefix_cache.block_size,
        s@.recency.len() == crate::eviction::key_order(s.eviction.blocks_map).len(),
        forall|i: int|
            0 <= i < s@.recency.len() ==> (#[trigger] s@.recency[i]).0 == crate::eviction::key_order(
                s.eviction.blocks_map,
            )[i],
        s@.prefix_hits == s.metrics.prefix_hits,
        s@.prefix_total == s.metrics.prefix_total,
        s@.blocks_evicted == s.metrics.blocks_evicted,
        s@.sequences.contains_key(k) <==> s.sequences@.contains_key(k),
        s@.sequences.contains_key(k) ==> {
            &&& s@.sequences[k].id == s.sequences@[k].id
            &&& s@.sequences[k].token_ids == s.sequences@[k].token_ids@
            &&& s@.sequences[k].table == s.sequences@[k].block_table@
            &&& s@.sequences[k].state == s.sequences@[k].state
        },
{
}

/// The blocks in use are those that some table refers to.
pub proof fn law_used(state: SchedulerView, i: u32)
    ensures
        state.used().contains(i) <==> exists|k: i32| #[trigger]
            state.sequences.contains_key(k) && state.sequences[k].table.blocks.contains(BlockID(i)),
{
    if state.used().contains(i) {
        let k = choose|k: i32| #[trigger] state.holds(k, BlockID(i));
        assert(state.sequences.contains_key(k));
    }
    if exists|k: i32| #[trigger]
        state.sequences.contains_key(k) && state.sequences[k].table.blocks.contains(BlockID(i)) {
        let k = choose|k: i32| #[trigger]
            state.sequences.contains_key(k) && state.sequences[k].table.blocks.contains(BlockID(i));
        assert(state.holds(k, BlockID(i)));
    }
}

/// The slots of all tables: none where there is no sequence, and with each sequence as many more
/// as its table has.
pub proof fn law_slots(sequences: Map<i32, SequenceView>, k: i32, s: SequenceView)
    requires
        sequences.dom().finite(),
        !sequences.contains_key(k),
    ensures
        crate::schedule::slots(Map::empty()) == 0,
        crate::schedule::slots(sequences.insert(k, s)) == crate::schedule::slots(sequences)
            + s.table.blocks.len(),
{
    crate::lists::lemma_total_insert(sequences, crate::schedule::slot_count(), k, s);
}

// ---------------------------------------------------------------------------------------------
// Construction and requests
// ---------------------------------------------------------------------------------------------

/// A new scheduler has no sequences and empty queues, every block is free, nothing is cached and
/// every counter stands at zero.
pub proof fn law_new_scheduler(num_blocks: nat, block_size: nat, k: i32, path: Seq<TokenId>)
    ensures
        ({
            let state = SchedulerView::fresh(num_blocks, block_size);
            &&& !state.sequences.contains_key(k)
            &&& state.waiting.len() == 0
            &&& state.running.len() == 0
            &&& state.recency.len() == 0
            &&& state.pool.free.len() == num_blocks
            &&& state.pool.refs.len() == num_blocks
            &&& forall|i: int|
                0 <= i < num_blocks ==> #[trigger] state.pool.free[i] == BlockID(i as u32)
            &&& forall|i: int| 0 <= i < num_blocks ==> #[trigger] state.pool.refs[i] == 0
            &&& state.pool.total_allocs == 0
            &&& state.next_id == 0
            &&& state.block_size == block_size
            &&& state.cache.block_size == block_size
            &&& !carried(state.cache, path)
            &&& state.prefix_hits == 0
            &&& state.prefix_total == 0
            &&& state.blocks_evicted == 0
        }),
{
    crate::effects::law_new_cache(block_size, path);
}

/// A new request goes behind the waiting queue, in which everybody else stays, with exactly the
/// submitted tokens and without blocks. Nothing else changes.
pub proof fn law_request_is_queued(state: SchedulerView, tokens: Seq<TokenId>)
    requires
        state.next_id < i32::MAX,
    ensures
        ({
            let post = state.added(tokens);
            let k = state.next_id;
            &&& joined_behind(state.waiting, SequenceId(k), post.waiting)
            &&& post.sequences.contains_key(k)
            &&& post.sequences[k].id == SequenceId(k)
            &&& post.sequences[k].token_ids == tokens
            &&& post.sequences[k].state == SequenceState::Waiting
            &&& post.sequences[k].table.blocks.len() == 0
            &&& post.sequences[k].table.num_tokens == 0
            &&& post.sequences[k].table.block_size == state.block_size
            &&& only_sequence(state, post, k)
            &&& post.next_id == k + 1
            &&& post.running == state.running
            &&& post.pool == state.pool
            &&& post.recency == state.recency
            &&& post.cache == state.cache
            &&& counted(state, post, 0, 0, 0)
        }),
{
}

/// Requests are queued in the order in which they come, under different IDs.
pub proof fn law_requests_queue_in_order(
    state: SchedulerView,
    first: Seq<TokenId>,
    second: Seq<TokenId>,
)
    requires
        state.next_id < i32::MAX - 1,
    ensures
        ({
            let post = state.added(first).added(second);
            let n = state.waiting.len() as int;
            &&& post.waiting.len() == n + 2
            &&& post.waiting.take(n) == state.waiting
            &&& post.waiting[n] != post.waiting[n + 1]
            &&& post.sequences[post.waiting[n].0].token_ids == first
            &&& post.sequences[post.waiting[n + 1].0].token_ids == second
        }),
{
    let post = state.added(first).added(second);
    assert(post.waiting.take(state.waiting.len() as int) =~= state.waiting);
}

// ---------------------------------------------------------------------------------------------
// Prefill
// ---------------------------------------------------------------------------------------------

/// The first `r` whole blocks of `tokens` are carried by the cache, and the next is not, or is not
/// whole.
pub open spec fn reusable(state: SchedulerView, tokens: Seq<TokenId>, r: nat) -> bool {
    let bs = state.block_size;
    &&& forall|i: int| 0 <= i < r ==> (i + 1) * bs <= tokens.len() && #[trigger] carried(
        state.cache,
        tokens.take((i + 1) * bs),
    )
    &&& (r + 1) * bs > tokens.len() || !carried(state.cache, tokens.take((r + 1) * bs as int))
}

/// Only one number of blocks is reusable, and it is the number of blocks that a prefill reuses.
proof fn lemma_reusable(state: SchedulerView, k: i32, r: nat)
    requires
        state.wf(),
        state.block_size > 0,
        reusable(state, state.sequences[k].token_ids, r),
    ensures
        state.reused(k).len() == r,
        r * state.block_size <= state.sequences[k].token_ids.len(),
        forall|i: int| 0 <= i < r ==> carries(
            state.cache,
            state.sequences[k].token_ids.take((i + 1) * state.block_size),
            #[trigger] state.reused(k)[i],
        ),
{
    let tokens = state.sequences[k].token_ids;
    let bs = state.block_size;
    let n = state.reused(k).len();
    crate::effects::law_matched_blocks(state.cache, tokens);
    if n < r {
        assert(carried(state.cache, tokens.take((n as int + 1) * bs)));
    }
    if r < n {
        assert(carries(state.cache, tokens.take((r as int + 1) * bs), state.reused(k)[r as int]));
        assert((r + 1) * bs <= n * bs) by (nonlinear_arith)
            requires
                r + 1 <= n,
        ;
    }
}

/// A prefilled sequence keeps its tokens and the blocks that it had. Behind these stand the blocks
/// that the cache carries for the prompt, then blocks that the pool hands out, no more than the
/// tokens take. No other sequence is touched.
pub proof fn law_prefill_fills_the_table(state: SchedulerView, k: i32, r: nat)
    requires
        state.wf(),
        state.can_prefill(k),
        state.block_size > 0,
        reusable(state, state.sequences[k].token_ids, r),
    ensures
        ({
            let post = state.prefilled(k);
            let s = state.sequences[k];
            let t = post.sequences[k];
            let n = s.table.blocks.len() as int;
            let m = t.table.blocks.len() - n - r;
            &&& post.sequences.contains_key(k)
            &&& t.id == s.id
            &&& t.token_ids == s.token_ids
            &&& t.state == SequenceState::Decoding
            &&& t.table.block_size == s.table.block_size
            &&& t.table.num_tokens == s.table.num_tokens + s.token_ids.len()
            &&& t.table.num_tokens <= t.table.blocks.len() * state.block_size
            &&& t.table.blocks.len() * state.block_size < t.table.num_tokens + state.block_size
            &&& 0 <= m <= state.pool.free.len()
            &&& forall|i: int| 0 <= i < n ==> #[trigger] t.table.blocks[i] == s.table.blocks[i]
            &&& forall|i: int|
                0 <= i < r ==> carries(
                    state.cache,
                    s.token_ids.take((i + 1) * state.block_size),
                    #[trigger] t.table.blocks[n + i],
                )
            &&& forall|i: int|
                0 <= i < m ==> #[trigger] t.table.blocks[n + r + i]
                    == state.pool.free[state.pool.free.len() - 1 - i]
            &&& only_sequence(state, post, k)
        }),
{
    let s = state.sequences[k];
    let shared = state.shared_table(k);
    assert(state.fits(k, s));
    lemma_reusable(state, k, r);
    state.lemma_reused(k);
    state.lemma_prefilled(k);
    assert(state.prefilled(k).sequences.contains_key(k));
    assert(state.prefilled(k).fits(k, state.prefilled(k).sequences[k]));
    crate::effects::law_no_block_is_wasted(state.prefilled(k).sequences[k].table);
    assert((s.token_ids.len() - r * state.block_size) + r * state.block_size == s.token_ids.len());
    let t = state.prefilled(k).sequences[k];
    let n = s.table.blocks.len() as int;
    assert forall|i: int| 0 <= i < r implies carries(
        state.cache,
        s.token_ids.take((i + 1) * state.block_size),
        #[trigger] t.table.blocks[n + i],
    ) by {
        assert(t.table.blocks[n + i] == state.reused(k)[i]);
    }
}

/// A prefill takes from the back of the free list as many blocks as the table gained beside the
/// reused ones; each has one reference. The reused blocks gain a reference each; no other count
/// changes.
pub proof fn law_prefill_takes_from_the_pool(state: SchedulerView, k: i32, r: nat)
    requires
        state.wf(),
        state.can_prefill(k),
        state.block_size > 0,
        reusable(state, state.sequences[k].token_ids, r),
    ensures
        ({
            let post = state.prefilled(k);
            let n = state.sequences[k].table.blocks.len() as int;
            let blocks = post.sequences[k].table.blocks;
            let m = blocks.len() - n - r;
            let reused = blocks.subrange(n, n + r);
            let fresh = blocks.skip(n + r);
            &&& post.pool.free.len() == state.pool.free.len() - m
            &&& forall|i: int|
                0 <= i < post.pool.free.len() ==> #[trigger] post.pool.free[i]
                    == state.pool.free[i]
            &&& post.pool.total_allocs == state.pool.total_allocs + m
            &&& post.pool.refs.len() == state.pool.refs.len()
            &&& forall|b: BlockID| #[trigger]
                state.pool.has(b) ==> post.pool.refs[b.0 as int] == if fresh.contains(b) {
                    1int
                } else {
                    state.pool.refs[b.0 as int] + reused.to_multiset().count(b)
                }
        }),
{
    let post = state.prefilled(k);
    let s = state.sequences[k];
    let n = s.table.blocks.len() as int;
    let blocks = post.sequences[k].table.blocks;
    let m = state.shared_table(k).missing(state.uncovered(k));
    assert(state.fits(k, s));
    lemma_reusable(state, k, r);
    state.lemma_reused(k);
    assert(blocks.subrange(n, n + r) =~= state.reused(k));
    assert(blocks.skip(n + r) =~= state.pool.upcoming(m));
    let mid = state.pool.incref_all(state.reused(k));
    assert(mid.upcoming(m) == state.pool.upcoming(m));
    assert forall|b: BlockID| #[trigger] state.pool.has(b) implies post.pool.refs[b.0 as int]
        == if blocks.skip(n + r).contains(b) {
        1int
    } else {
        state.pool.refs[b.0 as int] + blocks.subrange(n, n + r).to_multiset().count(b)
    } by {
        crate::effects::law_references_more(state.pool, state.reused(k), b);
        assert(BlockID(b.0 as int as u32) == b);
    }
}

/// A prefilled sequence leaves the waiting queue, in which everybody else stays, and goes behind
/// the running ones. The counters move by the prompt's tokens and by those that are reused.
pub proof fn law_prefill_moves_to_running(state: SchedulerView, k: i32, r: nat)
    requires
        state.wf(),
        state.can_prefill(k),
        state.block_size > 0,
        reusable(state, state.sequences[k].token_ids, r),
    ensures
        ({
            let post = state.prefilled(k);
            &&& left(state.waiting, SequenceId(k), post.waiting)
            &&& joined_behind(state.running, SequenceId(k), post.running)
            &&& counted(
                state,
                post,
                r * state.block_size,
                state.sequences[k].token_ids.len(),
                0,
            )
            &&& post.next_id == state.next_id
        }),
{
    lemma_reusable(state, k, r);
    crate::order::lemma_without_thins(state.waiting, SequenceId(k));
}

/// Prefilling a sequence without tokens allocates nothing, reuses nothing and touches no block.
pub proof fn law_prefill_of_nothing(state: SchedulerView, k: i32)
    requires
        state.wf(),
        state.can_prefill(k),
        state.sequences[k].token_ids.len() == 0,
    ensures
        ({
            let post = state.prefilled(k);
            &&& post.pool == state.pool
            &&& post.recency == state.recency
            &&& post.sequences[k].table == state.sequences[k].table
            &&& post.sequences[k].token_ids.len() == 0
            &&& post.sequences[k].state == SequenceState::Decoding
            &&& only_sequence(state, post, k)
            &&& left(state.waiting, SequenceId(k), post.waiting)
            &&& joined_behind(state.running, SequenceId(k), post.running)
            &&& forall|path: Seq<TokenId>, b: BlockID| #[trigger]
                carries(post.cache, path, b) <==> carries(state.cache, path, b)
            &&& counted(state, post, 0, 0, 0)
            &&& post.next_id == state.next_id
        }),
{
    let post = state.prefilled(k);
    let tokens = state.sequences[k].token_ids;
    assert(state.fits(k, state.sequences[k]));
    state.cache.lemma_hits_are_hits(tokens, 0);
    if state.reused(k).len() > 0 {
        assert(state.cache.hit(tokens, 0));
        assert((0 + 1) * state.block_size == state.block_size);
    }
    assert(state.reused(k) =~= Seq::empty());
    assert(0 * state.block_size == 0);
    state.pool.lemma_incref_all_empty();
    state.pool.lemma_allocated_many_zero();
    assert(state.shared_table(k) =~= state.table(k));
    assert(post.sequences[k].table =~= state.sequences[k].table);
    assert(Seq::<BlockID>::empty() + Seq::<BlockID>::empty() =~= Seq::<BlockID>::empty());
    crate::order::lemma_without_thins(state.waiting, SequenceId(k));
}

/// A prefill forgets nothing and remembers its prompt: every prefix of whole blocks carries the
/// block that holds it, and every other path carries what it did.
pub proof fn law_prefill_forgets_nothing(state: SchedulerView, k: i32, path: Seq<TokenId>)
    requires
        state.wf(),
        state.can_prefill(k),
        state.block_size > 0,
    ensures
        ({
            let post = state.prefilled(k);
            let tokens = state.sequences[k].token_ids;
            let bs = state.block_size;
            let whole = path.is_prefix_of(tokens) && path.len() > 0 && path.len() % bs == 0;
            &&& carried(state.cache, path) ==> carried(post.cache, path)
            &&& whole ==> carries(
                post.cache,
                path,
                post.sequences[k].table.blocks[path.len() as int / bs as int - 1],
            )
            &&& !whole ==> forall|b: BlockID| #[trigger]
                carries(post.cache, path, b) <==> carries(state.cache, path, b)
            &&& post.cache.nodes.contains_key(path) <==> state.cache.nodes.contains_key(path)
                || path.is_prefix_of(tokens)
            &&& post.cache.block_size == state.cache.block_size
        }),
{
    crate::effects::law_insert(
        state.cache,
        state.sequences[k].token_ids,
        state.prompt_table(k).blocks,
        path,
    );
}

/// A prefill takes nothing from what another prompt matches: it matches at least as many blocks
/// and tokens as before, and a prompt of another first block exactly the same blocks.
pub proof fn law_prefill_keeps_matches(state: SchedulerView, k: i32, prompt: Seq<TokenId>)
    requires
        state.wf(),
        state.can_prefill(k),
        state.block_size > 0,
    ensures
        ({
            let post = state.prefilled(k);
            let tokens = state.sequences[k].token_ids;
            let bs = state.block_size as int;
            let old_match = state.cache.matched_blocks(prompt);
            let new_match = post.cache.matched_blocks(prompt);
            &&& new_match.len() >= old_match.len()
            &&& post.cache.matched_tokens(prompt) >= state.cache.matched_tokens(prompt)
            &&& forall|i: int|
                0 <= i < old_match.len() && !prompt.take((i + 1) * bs).is_prefix_of(tokens)
                    ==> #[trigger] new_match[i] == old_match[i]
            &&& bs <= prompt.len() && !prompt.take(bs).is_prefix_of(tokens) ==> new_match
                == old_match
        }),
{
    let post = state.prefilled(k);
    let tokens = state.sequences[k].token_ids;
    let bs = state.block_size as int;
    let blocks = state.prompt_table(k).blocks;
    let old_match = state.cache.matched_blocks(prompt);
    let new_match = post.cache.matched_blocks(prompt);
    state.lemma_prefilled(k);
    if tokens.len() == 0 {
        assert(tokens.len() / state.block_size == 0) by (nonlinear_arith)
            requires
                tokens.len() == 0,
                state.block_size > 0,
        ;
    }
    crate::effects::law_insert_keeps_matches(state.cache, tokens, blocks, prompt);
    if bs <= prompt.len() && !prompt.take(bs).is_prefix_of(tokens) {
        let n = old_match.len();
        crate::effects::law_matched_blocks(state.cache, prompt);
        crate::effects::law_matched_blocks(post.cache, prompt);
        assert forall|i: int| 0 <= i && (i + 1) * bs <= prompt.len() implies !(#[trigger] prompt.take(
            (i + 1) * bs,
        )).is_prefix_of(tokens) by {
            let path = prompt.take((i + 1) * bs);
            assert((i + 1) * bs >= bs) by (nonlinear_arith)
                requires
                    i >= 0,
                    bs > 0,
            ;
            if path.is_prefix_of(tokens) {
                assert(path.take(bs) =~= prompt.take(bs));
                assert(prompt.take(bs).is_prefix_of(tokens));
            }
        }
        if new_match.len() > n {
            assert(carries(post.cache, prompt.take((n as int + 1) * bs), new_match[n as int]));
            assert((n + 1) * bs <= new_match.len() * bs) by (nonlinear_arith)
                requires
                    n + 1 <= new_match.len(),
                    bs > 0,
            ;
            law_prefill_forgets_nothing(state, k, prompt.take((n as int + 1) * bs));
        }
        assert forall|i: int| 0 <= i < n implies new_match[i] == old_match[i] by {
            assert((i + 1) * bs <= n * bs) by (nonlinear_arith)
                requires
                    i + 1 <= n,
                    bs > 0,
            ;
            assert(!prompt.take((i + 1) * bs).is_prefix_of(tokens));
        }
        assert(new_match =~= old_match);
    }
}

/// A prompt reuses every whole block that it has in common with the sequence that was prefilled
/// last.
pub proof fn law_prompts_share_what_they_have_in_common(
    state: SchedulerView,
    k: i32,
    prompt: Seq<TokenId>,
    n: nat,
)
    requires
        state.wf(),
        state.can_prefill(k),
        state.block_size > 0,
        n * state.block_size <= prompt.len(),
        n * state.block_size <= state.sequences[k].token_ids.len(),
        prompt.take((n * state.block_size) as int) == state.sequences[k].token_ids.take(
            (n * state.block_size) as int,
        ),
    ensures
        ({
            let post = state.prefilled(k);
            let matched = post.cache.matched_blocks(prompt);
            &&& matched.len() >= n
            &&& matched.take(n as int) == post.sequences[k].table.blocks.take(n as int)
        }),
{
    let tokens = state.sequences[k].token_ids;
    let bs = state.block_size;
    state.lemma_prefilled(k);
    if tokens.len() == 0 {
        assert(tokens.len() / bs == 0) by (nonlinear_arith)
            requires
                tokens.len() == 0,
                bs > 0,
        ;
    }
    assert((n * bs) / bs == n) by {
        vstd::arithmetic::div_mod::lemma_div_multiples_vanish(n as int, bs as int);
        assert(n * bs == bs * n) by (nonlinear_arith);
    }
    crate::laws::law_match_after_insert(
        state.cache,
        tokens,
        state.prompt_table(k).blocks,
        prompt,
        n * bs,
    );
}

/// The first slot that a prefill uses if it reuses `r` blocks: the one behind the table, or its
/// last one if that is not full and nothing is reused.
pub open spec fn first_use(table: TableView, r: nat) -> int {
    if r > 0 || table.num_tokens == table.blocks.len() * table.block_size {
        table.blocks.len() as int
    } else {
        table.blocks.len() - 1
    }
}

/// A prefill uses the blocks of its prompt, slot by slot: the reused ones, those that are handed
/// out, and, where nothing is reused and the table had a last block that was not full, that one.
/// These are then the most recent blocks, in the order of their slots; all others keep theirs.
pub proof fn law_prefill_is_an_access(state: SchedulerView, k: i32, r: nat)
    requires
        state.wf(),
        state.can_prefill(k),
        state.sequences[k].token_ids.len() > 0,
        reusable(state, state.sequences[k].token_ids, r),
    ensures
        ({
            let post = state.prefilled(k);
            let first = first_use(state.sequences[k].table, r);
            let used = post.sequences[k].table.blocks.skip(first);
            &&& used.len() > 0
            &&& post.recency.len() > 0
            &&& post.recency.last() == used.last()
            &&& refreshed(state.recency, Set::new(|b: BlockID| used.contains(b)), post.recency)
            &&& forall|i: int, j: int|
                #![trigger used[i], used[j]]
                0 <= i < j < used.len() && (forall|m: int|
                    i < m < used.len() ==> #[trigger] used[m] != used[i]) ==> before(
                    post.recency,
                    used[i],
                    used[j],
                )
            &&& state.recency.no_duplicates() ==> post.recency.no_duplicates()
        }),
{
    let post = state.prefilled(k);
    let s = state.sequences[k];
    let bs = state.block_size;
    let reused = state.reused(k);
    let shared = state.shared_table(k);
    let n = state.uncovered(k);
    let written = shared.written(state.pool, n);
    let blocks = post.sequences[k].table.blocks;
    let len = s.table.blocks.len() as int;
    let first = first_use(s.table, r);
    let used = blocks.skip(first);
    assert(state.fits(k, s));
    lemma_reusable(state, k, r);
    state.lemma_reused(k);
    shared.lemma_missing(n);
    crate::effects::law_append(s.table, state.pool, false);
    crate::effects::law_append(shared, state.pool, false);
    crate::lists::lemma_blocks_for_step(s.table.num_tokens, bs);
    crate::lists::lemma_blocks_for_step(shared.num_tokens, bs);
    vstd::arithmetic::div_mod::lemma_fundamental_div_mod(s.table.num_tokens as int, bs as int);
    assert(shared.blocks =~= s.table.blocks + reused);
    // Whole blocks leave the last block as full as it was.
    vstd::arithmetic::div_mod::lemma_mod_multiples_vanish(
        r as int,
        s.table.num_tokens as int,
        bs as int,
    );
    assert(bs * r + s.table.num_tokens == shared.num_tokens) by (nonlinear_arith)
        requires
            shared.num_tokens == s.table.num_tokens + r * bs,
    ;
    let slot = (shared.num_tokens / bs) as int;
    if n > 0 {
        crate::lists::lemma_blocks_for_step((shared.num_tokens + n - 1) as nat, bs);
        vstd::arithmetic::div_mod::lemma_div_is_ordered(
            shared.num_tokens as int,
            shared.num_tokens + n - 1,
            bs as int,
        );
        assert(blocks.len() > slot);
        assert(written =~= blocks.skip(slot));
    } else {
        assert(reused.len() > 0) by {
            if reused.len() == 0 {
                assert(0 * bs == 0);
            }
        }
        assert(written =~= Seq::empty());
        state.pool.lemma_allocated_many_zero();
        assert(blocks =~= shared.blocks);
    }
    assert(post.recency == crate::lists::touch_all(state.recency, used)) by {
        if n > 0 && r > 0 && shared.num_tokens % bs != 0 {
            // The last reused block is written to, too.
            let l = reused.last();
            assert(slot == len + r - 1);
            assert(used =~= reused + blocks.skip(len + r));
            assert(written =~= seq![l] + blocks.skip(len + r));
            crate::lists::lemma_touch_all_add(state.recency, reused, written);
            crate::lists::lemma_touch_all_add(
                crate::lists::touch_all(state.recency, reused),
                seq![l],
                blocks.skip(len + r),
            );
            crate::lists::lemma_touch_all_add(state.recency, reused, blocks.skip(len + r));
            let before_l = crate::lists::touch_all(state.recency, reused.drop_last());
            let with_l = crate::lists::touch_all(state.recency, reused);
            assert(with_l == crate::lists::touch(before_l, l));
            crate::lists::lemma_touch_twice(before_l, l);
            assert(Seq::<BlockID>::empty().push(l) =~= seq![l]);
            crate::lists::lemma_touch_all_push(with_l, Seq::empty(), l);
        } else {
            assert(used =~= reused + written);
        }
    }
    crate::order::lemma_touch_all_refreshes(state.recency, used);
}

/// When a sequence without blocks can be prefilled: when the free blocks suffice for the part of
/// its prompt that is not cached, and no counter overflows.
pub proof fn law_prefill_is_possible(state: SchedulerView, k: i32, r: nat, needed: nat)
    requires
        state.wf(),
        state.block_size > 0,
        state.sequences.contains_key(k),
        state.sequences[k].table.blocks.len() == 0,
        reusable(state, state.sequences[k].token_ids, r),
        r <= needed,
        state.sequences[k].token_ids.len() <= needed * state.block_size,
        needed * state.block_size < state.sequences[k].token_ids.len() + state.block_size,
        forall|b: BlockID| #[trigger] state.pool.has(b) ==> state.pool.refs[b.0 as int] + r <= u32::MAX,
        state.sequences[k].token_ids.len() <= usize::MAX,
        state.pool.total_allocs + needed - r <= usize::MAX,
        state.prefix_total + state.sequences[k].token_ids.len() <= usize::MAX,
        state.prefix_hits + r * state.block_size <= usize::MAX,
    ensures
        state.can_prefill(k) <==> needed - r <= state.pool.free.len(),
{
    let s = state.sequences[k];
    let bs = state.block_size;
    let tokens = s.token_ids;
    let reused = state.reused(k);
    let shared = state.shared_table(k);
    let n = state.uncovered(k);
    assert(state.fits(k, s));
    lemma_reusable(state, k, r);
    state.lemma_reused(k);
    crate::effects::law_no_block_is_wasted(s.table);
    assert(0 * bs == 0);
    shared.lemma_missing(n);
    assert(shared.num_tokens + n == tokens.len());
    let full = crate::lists::blocks_for(tokens.len(), bs);
    let whole = TableView {
        blocks: Seq::new(full, |i: int| BlockID(0)),
        block_size: bs,
        num_tokens: tokens.len(),
    };
    crate::effects::law_no_block_is_wasted(whole);
    assert(full == needed) by (nonlinear_arith)
        requires
            tokens.len() <= full * bs,
            full * bs < tokens.len() + bs,
            tokens.len() <= needed * bs,
            needed * bs < tokens.len() + bs,
            bs > 0,
    ;
    assert forall|b: BlockID| #[trigger] state.pool.has(b) implies state.pool.count(b)
        + crate::lists::occurrences(reused, b) <= u32::MAX by {
        lemma_occurrences_bounded(reused, b);
    }
}

proof fn lemma_occurrences_bounded(blocks: Seq<BlockID>, b: BlockID)
    ensures
        crate::lists::occurrences(blocks, b) <= blocks.len(),
    decreases blocks.len(),
{
    if blocks.len() > 0 {
        lemma_occurrences_bounded(blocks.drop_last(), b);
    }
}

// ---------------------------------------------------------------------------------------------
// Fork
// ---------------------------------------------------------------------------------------------

/// A fork goes behind the running sequences, and its parent before it if it did not run. Its
/// blocks gain a reference each and are the most recent ones; nothing is allocated, freed, cached
/// or counted, and no other sequence is touched.
pub proof fn law_fork_touches_nothing_else(state: SchedulerView, k: i32)
    requires
        state.wf(),
        state.sequences.contains_key(k),
        state.pool.can_incref_all(state.sequences[k].table.blocks),
        state.next_id < i32::MAX,
    ensures
        ({
            let post = state.forked(k);
            let id = SequenceId(k);
            let child = SequenceId(state.next_id);
            let blocks = state.sequences[k].table.blocks;
            let used = Set::new(|b: BlockID| blocks.contains(b));
            &&& state.running.contains(id) ==> {
                &&& joined_behind(state.running, child, post.running)
                &&& post.waiting == state.waiting
                &&& post.sequences[k] == state.sequences[k]
            }
            &&& !state.running.contains(id) ==> {
                &&& post.running == state.running.push(id).push(child)
                &&& left(state.waiting, id, post.waiting)
                &&& post.sequences[k] == (SequenceView {
                    state: SequenceState::Decoding,
                    ..state.sequences[k]
                })
            }
            &&& post.sequences.contains_key(k)
            &&& post.sequences.contains_key(state.next_id)
            &&& post.sequences[state.next_id].id == child
            &&& post.sequences[state.next_id].token_ids == state.sequences[k].token_ids
            &&& post.sequences[state.next_id].table == state.sequences[k].table
            &&& post.sequences[state.next_id].state == SequenceState::Decoding
            &&& forall|j: i32|
                j != k && j != state.next_id ==> {
                    &&& #[trigger] post.sequences.contains_key(j) <==> state.sequences.contains_key(j)
                    &&& state.sequences.contains_key(j) ==> post.sequences[j] == state.sequences[j]
                }
            &&& post.pool.free == state.pool.free
            &&& post.pool.total_allocs == state.pool.total_allocs
            &&& post.pool.refs.len() == state.pool.refs.len()
            &&& forall|b: BlockID| #[trigger]
                state.pool.has(b) ==> post.pool.refs[b.0 as int] == state.pool.refs[b.0 as int]
                    + blocks.to_multiset().count(b)
            &&& refreshed(state.recency, used, post.recency)
            &&& blocks.len() > 0 ==> post.recency.last() == blocks.last()
            &&& forall|i: int, j: int|
                #![trigger blocks[i], blocks[j]]
                0 <= i < j < blocks.len() && (forall|m: int|
                    i < m < blocks.len() ==> #[trigger] blocks[m] != blocks[i]) ==> before(
                    post.recency,
                    blocks[i],
                    blocks[j],
                )
            &&& post.cache == state.cache
            &&& post.next_id == state.next_id + 1
            &&& counted(state, post, 0, 0, 0)
        }),
{
    let post = state.forked(k);
    let blocks = state.sequences[k].table.blocks;
    crate::laws::law_new_ids_are_fresh(state);
    crate::order::lemma_without_thins(state.waiting, SequenceId(k));
    crate::order::lemma_touch_all_refreshes(state.recency, blocks);
    assert forall|b: BlockID| #[trigger] state.pool.has(b) implies post.pool.refs[b.0 as int]
        == state.pool.refs[b.0 as int] + blocks.to_multiset().count(b) by {
        crate::effects::law_references_more(state.pool, blocks, b);
    }
}

// ---------------------------------------------------------------------------------------------
// Finish and preempt
// ---------------------------------------------------------------------------------------------

/// Sequence `k` has given up its blocks: one reference for each of its slots, first to last. Those
/// that nobody else refers to are at the front of the free list, the last one first, and have left
/// the order of accesses. The sequence has left the running ones; no other sequence is touched.
pub open spec fn gives_up(state: SchedulerView, post: SchedulerView, k: i32) -> bool {
    let blocks = state.sequences[k].table.blocks;
    let freed = Set::new(
        |b: BlockID| blocks.contains(b) && state.pool.refs[b.0 as int]
            == blocks.to_multiset().count(b),
    );
    &&& forall|b: BlockID| #[trigger]
        state.pool.has(b) ==> post.pool.refs[b.0 as int] == state.pool.refs[b.0 as int]
            - blocks.to_multiset().count(b)
    &&& post.pool.refs.len() == state.pool.refs.len()
    &&& post.pool.total_allocs == state.pool.total_allocs
    &&& post.pool.free.len() >= state.pool.free.len()
    &&& post.pool.free.skip(post.pool.free.len() - state.pool.free.len()) == state.pool.free
    &&& forall|b: BlockID| #[trigger]
        post.pool.free.contains(b) <==> state.pool.free.contains(b) || freed.contains(b)
    &&& forall|i: int, j: int|
        #![trigger blocks[i], blocks[j]]
        0 <= i < j < blocks.len() && freed.contains(blocks[i]) && freed.contains(blocks[j]) && (
        forall|m: int| i < m < blocks.len() ==> #[trigger] blocks[m] != blocks[i]) && (forall|
            m: int,
        |
            j < m < blocks.len() ==> #[trigger] blocks[m] != blocks[j]) ==> before(
            post.pool.free,
            blocks[j],
            blocks[i],
        )
    &&& thinned(state.recency, freed, post.recency)
    &&& left(state.running, SequenceId(k), post.running)
    &&& only_sequence(state, post, k)
    &&& post.sequences.contains_key(k)
    &&& post.sequences[k].id == state.sequences[k].id
    &&& post.sequences[k].token_ids == state.sequences[k].token_ids
    &&& post.sequences[k].table.blocks.len() == 0
    &&& post.sequences[k].table.num_tokens == 0
    &&& post.sequences[k].table.block_size == state.sequences[k].table.block_size
    &&& post.next_id == state.next_id
}

proof fn lemma_gives_up(state: SchedulerView, post: SchedulerView, k: i32)
    requires
        state.wf(),
        state.pool.wf(),
        state.sequences.contains_key(k),
        state.pool.can_decref_all(state.sequences[k].table.blocks),
        post.pool == state.pool.decref_all(state.sequences[k].table.blocks),
        post.recency == crate::lists::without_all(
            state.recency,
            state.pool.freed(state.sequences[k].table.blocks),
        ),
        post.running == crate::lists::without(state.running, SequenceId(k)),
        exists|s: SequenceState|
            post.sequences == #[trigger] state.with_table(
                k,
                TableView::empty(state.table(k).block_size),
                s,
            ),
        post.next_id == state.next_id,
    ensures
        gives_up(state, post, k),
{
    let blocks = state.sequences[k].table.blocks;
    let freed = Set::new(
        |b: BlockID| blocks.contains(b) && state.pool.refs[b.0 as int]
            == blocks.to_multiset().count(b),
    );
    assert(state.fits(k, state.sequences[k]));
    crate::effects::law_references_fewer(state.pool, blocks);
    state.pool.lemma_decref_all(blocks);
    state.pool.lemma_freed(blocks);
    assert forall|b: BlockID| blocks.contains(b) implies state.pool.has(b) by {
        assert(state.pool.has(blocks[blocks.index_of(b)]));
    }
    let gone = Set::new(|b: BlockID| state.pool.freed(blocks).contains(b));
    assert forall|b: BlockID| gone.contains(b) <==> freed.contains(b) by {
        if blocks.contains(b) {
            assert(state.pool.has(b));
        }
    }
    assert(gone =~= freed);
    crate::order::lemma_without_all_thins(state.recency, state.pool.freed(blocks));
    crate::order::lemma_without_thins(state.running, SequenceId(k));
    assert forall|i: int, j: int|
        #![trigger blocks[i], blocks[j]]
        0 <= i < j < blocks.len() && freed.contains(blocks[i]) && freed.contains(blocks[j]) && (
        forall|m: int| i < m < blocks.len() ==> #[trigger] blocks[m] != blocks[i]) && (forall|
            m: int,
        |
            j < m < blocks.len() ==> #[trigger] blocks[m] != blocks[j]) implies before(
        post.pool.free,
        blocks[j],
        blocks[i],
    ) by {
        assert(state.pool.has(blocks[i]));
        assert(state.pool.has(blocks[j]));
        assert(blocks[i] != blocks[j]);
    }
    let n = post.pool.free.len() - state.pool.free.len();
    assert forall|b: BlockID| #[trigger] post.pool.free.contains(b) <==> state.pool.free.contains(b)
        || freed.contains(b) by {
        if post.pool.free.contains(b) {
            let i = post.pool.free.index_of(b);
            if i < n {
                assert(post.pool.free.take(n)[i] == b);
                assert(post.pool.free.take(n).contains(b));
                assert(state.pool.has(b));
            } else {
                assert(post.pool.free.skip(n)[i - n] == b);
            }
        }
        if state.pool.free.contains(b) {
            let j = state.pool.free.index_of(b);
            assert(post.pool.free.skip(n)[j] == b);
            assert(post.pool.free[n + j] == b);
        }
        if freed.contains(b) {
            assert(state.pool.has(b));
            assert(post.pool.free.take(n).contains(b));
            let i = post.pool.free.take(n).index_of(b);
            assert(post.pool.free[i] == b);
        }
    }
}

/// Finishing a sequence takes that sequence and no other out of the decode loop: every other
/// running sequence still runs, in the same order. It gives up one reference for each of its
/// slots; the blocks that nobody else refers to go to the free list, and they alone leave the
/// order of accesses and the prefix cache. No other sequence is touched, and nobody joins or leaves
/// the waiting queue.
pub proof fn law_finish_takes_one_out(state: SchedulerView, k: i32)
    requires
        state.wf(),
        state.pool.wf(),
        state.sequences.contains_key(k),
        state.pool.can_decref_all(state.sequences[k].table.blocks),
    ensures
        ({
            let post = state.finished(k);
            let blocks = state.sequences[k].table.blocks;
            &&& gives_up(state, post, k)
            &&& post.sequences[k].state == SequenceState::Finished
            &&& post.waiting == state.waiting
            &&& counted(state, post, 0, 0, 0)
            &&& forall|path: Seq<TokenId>, b: BlockID| #[trigger]
                carries(post.cache, path, b) <==> carries(state.cache, path, b) && !(
                blocks.contains(b) && state.pool.refs[b.0 as int] == blocks.to_multiset().count(b))
            &&& forall|path: Seq<TokenId>| #[trigger]
                post.cache.nodes.contains_key(path) <==> state.cache.nodes.contains_key(path)
            &&& post.cache.block_size == state.cache.block_size
        }),
{
    let post = state.finished(k);
    let blocks = state.sequences[k].table.blocks;
    lemma_gives_up(state, post, k);
    assert(state.fits(k, state.sequences[k]));
    state.pool.lemma_freed(blocks);
    assert forall|path: Seq<TokenId>, b: BlockID| #[trigger]
        carries(post.cache, path, b) <==> carries(state.cache, path, b) && !(blocks.contains(b)
            && state.pool.refs[b.0 as int] == blocks.to_multiset().count(b)) by {
        crate::effects::law_evict(state.cache, state.pool.freed(blocks), path, b);
        if blocks.contains(b) {
            assert(state.pool.has(blocks[blocks.index_of(b)]));
        }
    }
}

/// Preempting a sequence takes that sequence and no other out of running: every other sequence
/// that was running still runs, in the same order. It goes behind the waiting queue, keeps its
/// tokens and gives up one reference for each of its slots; the blocks that nobody else refers to
/// go to the free list and leave the order of accesses, and the prefix cache forgets all its
/// blocks. No other sequence is touched.
pub proof fn law_preempt_takes_one_out(state: SchedulerView, k: i32)
    requires
        state.wf(),
        state.pool.wf(),
        state.sequences.contains_key(k),
        state.pool.can_decref_all(state.sequences[k].table.blocks),
    ensures
        ({
            let post = state.preempted(k);
            let blocks = state.sequences[k].table.blocks;
            &&& gives_up(state, post, k)
            &&& post.sequences[k].state == SequenceState::Waiting
            &&& joined_behind(state.waiting, SequenceId(k), post.waiting)
            &&& counted(state, post, 0, 0, 1)
            &&& forall|path: Seq<TokenId>, b: BlockID| #[trigger]
                carries(post.cache, path, b) <==> carries(state.cache, path, b) && !blocks.contains(
                    b,
                )
            &&& forall|path: Seq<TokenId>| #[trigger]
                post.cache.nodes.contains_key(path) <==> state.cache.nodes.contains_key(path)
            &&& post.cache.block_size == state.cache.block_size
        }),
{
    let post = state.preempted(k);
    let blocks = state.sequences[k].table.blocks;
    lemma_gives_up(state, post, k);
    assert forall|path: Seq<TokenId>, b: BlockID| #[trigger]
        carries(post.cache, path, b) <==> carries(state.cache, path, b) && !blocks.contains(b) by {
        crate::effects::law_evict(state.cache, blocks, path, b);
    }
}

/// `v` holds the least recently used block that has exactly one reference: every block used less
/// recently has none or several.
pub open spec fn holds_the_oldest(state: SchedulerView, v: i32) -> bool {
    exists|i: int|
        #![trigger state.recency[i]]
        {
            &&& 0 <= i < state.recency.len()
            &&& state.pool.refs[state.recency[i].0 as int] == 1
            &&& forall|j: int|
                0 <= j < i ==> state.pool.refs[(#[trigger] state.recency[j]).0 as int] != 1
            &&& state.sequences.contains_key(v)
            &&& state.sequences[v].table.blocks.contains(state.recency[i])
        }
}

/// Who may be preempted: whoever holds the least recently used block of one reference.
pub proof fn law_the_oldest_is_preempted(state: SchedulerView, v: i32)
    ensures
        state.preemptible(v) <==> holds_the_oldest(state, v),
{
    crate::eviction::lemma_first_exclusive(state.recency, state.pool);
    if state.preemptible(v) {
        let b = state.victim()->0;
        let i = choose|i: int|
            #![trigger state.recency[i]]
            0 <= i < state.recency.len() && state.recency[i] == b && forall|j: int|
                0 <= j < i ==> state.pool.count(#[trigger] state.recency[j]) != 1;
        assert(state.recency[i] == b);
        assert forall|j: int| 0 <= j < i implies state.pool.refs[(
        #[trigger] state.recency[j]).0 as int] != 1 by {
            assert(state.pool.count(state.recency[j]) != 1);
        }
    }
    if holds_the_oldest(state, v) {
        let i = choose|i: int|
            #![trigger state.recency[i]]
            {
                &&& 0 <= i < state.recency.len()
                &&& state.pool.refs[state.recency[i].0 as int] == 1
                &&& forall|j: int|
                    0 <= j < i ==> state.pool.refs[(#[trigger] state.recency[j]).0 as int] != 1
                &&& state.sequences.contains_key(v)
                &&& state.sequences[v].table.blocks.contains(state.recency[i])
            };
        assert(state.pool.count(state.recency[i]) == 1);
        let b = state.victim()->0;
        let p = choose|p: int|
            #![trigger state.recency[p]]
            0 <= p < state.recency.len() && state.recency[p] == b && forall|j: int|
                0 <= j < p ==> state.pool.count(#[trigger] state.recency[j]) != 1;
        if p < i {
            assert(state.pool.refs[state.recency[p].0 as int] != 1);
        }
        if i < p {
            assert(state.pool.count(state.recency[i]) != 1);
        }
    }
}

} // verus!
