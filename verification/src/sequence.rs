//! Sequences and the scheduler that drives them.
use crate::block_pool::{BlockID, BlockPool, BlockPoolConfig, PoolFull};
use crate::block_table::{BlockTable, TableView};
use crate::eviction::{EvictionPolicy, LRUEviction};
use crate::keys::keys_of;
use crate::prefix_cache::PrefixCache;
use crate::schedule::{SchedulerView, SequenceView};
use std::collections::{HashMap, HashSet, VecDeque};
use vstd::prelude::*;

verus! {

/// Errors that can occur at the scheduler level.
#[derive(Debug)]
pub enum SchedulerError {
    /// The pool is full and no blocks are eligible for eviction.
    NothingEvictable,
}

pub enum SequenceState {
    Waiting,
    Prefilling,
    Decoding,
    Finished,
}

#[derive(Debug, Copy, PartialEq, Hash, Clone, Eq, Structural)]
pub struct SequenceId(pub i32);

#[derive(Debug, Copy, Clone, Hash, Eq, PartialEq, Structural)]
pub struct TokenId(pub i32);

pub struct Sequence {
    pub id: SequenceId,
    /// All token IDs so far: prompt tokens followed by generated tokens.
    pub token_ids: Vec<TokenId>,
    pub block_table: BlockTable,
    pub state: SequenceState,
}

impl View for Sequence {
    type V = SequenceView;

    open spec fn view(&self) -> SequenceView {
        SequenceView {
            id: self.id,
            token_ids: self.token_ids@,
            table: self.block_table@,
            state: self.state,
        }
    }
}

impl Sequence {
    /// A sequence that waits and has no blocks.
    pub fn new(id: SequenceId, token_ids: Vec<TokenId>, block_size: usize) -> (sequence: Sequence)
        ensures
            sequence@ == (SequenceView {
                id,
                token_ids: token_ids@,
                table: TableView::empty(block_size as nat),
                state: SequenceState::Waiting,
            }),
            sequence@.table.wf(),
    {
        Sequence {
            id,
            token_ids,
            block_table: BlockTable::new(block_size),
            state: SequenceState::Waiting,
        }
    }
}

/// Aggregate metrics collected over a scheduler's lifetime.
pub struct Metrics {
    /// Tokens matched from the prefix cache (saved allocations).
    pub prefix_hits: usize,
    /// Total prompt tokens submitted to the prefix cache.
    pub prefix_total: usize,
    /// Number of sequences preempted due to pool exhaustion.
    pub blocks_evicted: usize,
}

impl Metrics {
    fn new() -> (metrics: Self)
        ensures
            metrics.prefix_hits == 0,
            metrics.prefix_total == 0,
            metrics.blocks_evicted == 0,
    {
        Metrics { prefix_hits: 0, prefix_total: 0, blocks_evicted: 0 }
    }
}

/// Top-level scheduler: owns the block pool, sequence state, eviction policy,
/// and prefix cache. Drives the prefill and decode loop.
pub struct Scheduler {
    pub pool: BlockPool,
    /// The sequences, keyed by the number of their ID.
    pub sequences: HashMap<i32, Sequence>,
    /// Sequences waiting to be prefilled.
    pub waiting: VecDeque<SequenceId>,
    /// Sequences currently in the decode loop.
    pub running: Vec<SequenceId>,
    pub block_size: usize,
    pub next_id: i32,
    pub eviction: LRUEviction,
    pub prefix_cache: PrefixCache,
    pub metrics: Metrics,
}

impl View for Scheduler {
    type V = SchedulerView;

    open spec fn view(&self) -> SchedulerView {
        SchedulerView {
            pool: self.pool@,
            sequences: self.sequences@.map_values(|s: Sequence| s@),
            waiting: self.waiting@,
            running: self.running@,
            block_size: self.block_size as nat,
            next_id: self.next_id,
            recency: self.eviction@,
            cache: self.prefix_cache@,
            prefix_hits: self.metrics.prefix_hits as nat,
            prefix_total: self.metrics.prefix_total as nat,
            blocks_evicted: self.metrics.blocks_evicted as nat,
        }
    }
}

/// Whether `ids` names `id`.
fn contains(ids: &Vec<SequenceId>, id: SequenceId) -> (found: bool)
    ensures
        found <==> ids@.contains(id),
{
    let n: usize = ids.len();
    for i in 0..n
        invariant
            n == ids@.len(),
            forall|j: int| 0 <= j < i ==> ids@[j] != id,
    {
        if ids[i] == id {
            return true;
        }
    }
    false
}

/// Whether `blocks` names `block_id`.
fn holds_block(blocks: &[BlockID], block_id: BlockID) -> (found: bool)
    ensures
        found <==> blocks@.contains(block_id),
{
    let n: usize = blocks.len();
    for i in 0..n
        invariant
            n == blocks@.len(),
            forall|j: int| 0 <= j < i ==> blocks@[j] != block_id,
    {
        if blocks[i] == block_id {
            return true;
        }
    }
    false
}

/// Adds the indices of `blocks` to a set.
fn see_all(seen: &mut HashSet<u32>, blocks: &[BlockID])
    ensures
        forall|i: u32| #[trigger]
            final(seen)@.contains(i) <==> old(seen)@.contains(i) || blocks@.contains(BlockID(i)),
{
    let n: usize = blocks.len();
    for i in 0..n
        invariant
            n == blocks@.len(),
            forall|k: u32| #[trigger]
                seen@.contains(k) <==> old(seen)@.contains(k) || blocks@.take(i as int).contains(
                    BlockID(k),
                ),
    {
        proof {
            let some = blocks@.take(i as int);
            let more = blocks@.take(i + 1);
            let b = blocks@[i as int];
            assert forall|c: BlockID| #[trigger] more.contains(c) <==> some.contains(c) || c == b by {
                if some.contains(c) {
                    assert(more[some.index_of(c)] == c);
                }
                if c == b {
                    assert(more[i as int] == c);
                }
                if more.contains(c) && c != b {
                    assert(some[more.index_of(c)] == c);
                }
            }
        }
        seen.insert(blocks[i].0);
    }
    assert(blocks@.take(n as int) =~= blocks@);
}

/// The IDs of `ids` but `id`.
fn running_without(ids: &Vec<SequenceId>, id: SequenceId) -> (rest: Vec<SequenceId>)
    ensures
        rest@ == crate::lists::without(ids@, id),
{
    let mut rest: Vec<SequenceId> = Vec::new();
    let n: usize = ids.len();
    proof {
        crate::lists::lemma_without_absent(ids@.take(0), id);
    }
    for i in 0..n
        invariant
            n == ids@.len(),
            rest@ == crate::lists::without(ids@.take(i as int), id),
    {
        proof {
            assert(ids@.take(i + 1) =~= ids@.take(i as int).push(ids@[i as int]));
            crate::lists::lemma_without_push(ids@.take(i as int), ids@[i as int], id);
        }
        if ids[i] != id {
            rest.push(ids[i]);
        }
    }
    assert(ids@.take(n as int) =~= ids@);
    rest
}

/// The IDs of the queue `ids` but `id`.
fn waiting_without(ids: &VecDeque<SequenceId>, id: SequenceId) -> (rest: VecDeque<SequenceId>)
    ensures
        rest@ == crate::lists::without(ids@, id),
{
    let mut rest: VecDeque<SequenceId> = VecDeque::new();
    let n: usize = ids.len();
    proof {
        crate::lists::lemma_without_absent(ids@.take(0), id);
    }
    for i in 0..n
        invariant
            n == ids@.len(),
            rest@ == crate::lists::without(ids@.take(i as int), id),
    {
        proof {
            assert(ids@.take(i + 1) =~= ids@.take(i as int).push(ids@[i as int]));
            crate::lists::lemma_without_push(ids@.take(i as int), ids@[i as int], id);
        }
        if ids[i] != id {
            rest.push_back(ids[i]);
        }
    }
    assert(ids@.take(n as int) =~= ids@);
    rest
}

/// Drops a reference to each block of `blocks`.
fn decref_all(pool: &mut BlockPool, blocks: &[BlockID])
    requires
        old(pool)@.valid(),
        old(pool)@.has_all(blocks@),
        old(pool)@.can_decref_all(blocks@),
    ensures
        final(pool)@ == old(pool)@.decref_all(blocks@),
{
    let n: usize = blocks.len();
    assert(blocks@.take(0) =~= Seq::empty());
    for i in 0..n
        invariant
            n == blocks@.len(),
            old(pool)@.valid(),
            old(pool)@.has_all(blocks@),
            old(pool)@.can_decref_all(blocks@),
            pool@ == old(pool)@.decref_all(blocks@.take(i as int)),
    {
        proof {
            old(pool)@.lemma_decref_all_step(blocks@, i as int);
        }
        pool.decref(blocks[i]);
    }
    assert(blocks@.take(n as int) =~= blocks@);
}

/// The blocks of `blocks` to which there is no reference.
fn unreferenced(pool: &BlockPool, blocks: &[BlockID]) -> (rest: Vec<BlockID>)
    requires
        pool@.has_all(blocks@),
    ensures
        rest@ == pool@.unreferenced(blocks@),
{
    let mut rest: Vec<BlockID> = Vec::new();
    let n: usize = blocks.len();
    proof {
        reveal(Seq::filter);
        assert(pool@.unreferenced(blocks@.take(0)) =~= Seq::empty());
    }
    for i in 0..n
        invariant
            n == blocks@.len(),
            pool@.has_all(blocks@),
            rest@ == pool@.unreferenced(blocks@.take(i as int)),
    {
        proof {
            reveal(Seq::filter);
            assert(blocks@.take(i + 1).drop_last() =~= blocks@.take(i as int));
        }
        if pool.is_free(blocks[i]) {
            rest.push(blocks[i]);
        }
    }
    assert(blocks@.take(n as int) =~= blocks@);
    rest
}

/// Stops tracking each block of `blocks`.
fn free_all(eviction: &mut LRUEviction, blocks: &[BlockID])
    ensures
        final(eviction)@ == crate::lists::without_all(old(eviction)@, blocks@),
{
    let n: usize = blocks.len();
    proof {
        assert(blocks@.take(0) =~= Seq::empty());
        crate::lists::lemma_without_all_empty(eviction@);
    }
    for i in 0..n
        invariant
            n == blocks@.len(),
            eviction@ == crate::lists::without_all(old(eviction)@, blocks@.take(i as int)),
    {
        proof {
            assert(blocks@.take(i + 1) =~= blocks@.take(i as int).push(blocks@[i as int]));
            crate::lists::lemma_without_all_push(
                old(eviction)@,
                blocks@.take(i as int),
                blocks@[i as int],
            );
        }
        eviction.on_free(&blocks[i]);
    }
    assert(blocks@.take(n as int) =~= blocks@);
}

/// Drops a reference to each block of `blocks`, stops tracking those that become free, and
/// returns them.
fn give_up(pool: &mut BlockPool, eviction: &mut LRUEviction, blocks: &[BlockID]) -> (freed: Vec<
    BlockID,
>)
    requires
        old(pool)@.valid(),
        old(pool)@.has_all(blocks@),
        old(pool)@.can_decref_all(blocks@),
    ensures
        freed@ == old(pool)@.freed(blocks@),
        final(pool)@ == old(pool)@.decref_all(blocks@),
        final(eviction)@ == crate::lists::without_all(old(eviction)@, freed@),
{
    decref_all(pool, blocks);
    proof {
        old(pool)@.lemma_decref_all(blocks@);
        assert forall|i: int| 0 <= i < blocks@.len() implies pool@.has(#[trigger] blocks@[i]) by {
            assert(old(pool)@.has(blocks@[i]));
        }
    }
    let freed = unreferenced(pool, blocks);
    free_all(eviction, freed.as_slice());
    freed
}

/// Makes the prefix cache forget each block of `blocks`.
fn forget(cache: &mut PrefixCache, blocks: &[BlockID])
    ensures
        final(cache)@ == old(cache)@.evicted(blocks@),
{
    let n: usize = blocks.len();
    proof {
        assert(blocks@.take(0) =~= Seq::empty());
        cache@.lemma_evicted_empty();
    }
    for i in 0..n
        invariant
            n == blocks@.len(),
            cache@ == old(cache)@.evicted(blocks@.take(i as int)),
    {
        proof {
            assert(blocks@.take(i + 1) =~= blocks@.take(i as int).push(blocks@[i as int]));
            old(cache)@.lemma_evicted_push(blocks@.take(i as int), blocks@[i as int]);
        }
        cache.evict(blocks[i]);
    }
    assert(blocks@.take(n as int) =~= blocks@);
}

/// Records an access to each block of `blocks`.
fn access_all(eviction: &mut LRUEviction, blocks: &[BlockID])
    ensures
        final(eviction)@ == crate::lists::touch_all(old(eviction)@, blocks@),
{
    let n: usize = blocks.len();
    for i in 0..n
        invariant
            n == blocks@.len(),
            eviction@ == crate::lists::touch_all(old(eviction)@, blocks@.take(i as int)),
    {
        proof {
            assert(blocks@.take(i + 1) =~= blocks@.take(i as int).push(blocks@[i as int]));
            crate::lists::lemma_touch_all_push(
                old(eviction)@,
                blocks@.take(i as int),
                blocks@[i as int],
            );
        }
        eviction.on_access(&blocks[i]);
    }
    assert(blocks@.take(n as int) =~= blocks@);
}

/// Puts shared blocks behind a table, each with one more reference, and records the accesses.
fn share(
    pool: &mut BlockPool,
    eviction: &mut LRUEviction,
    table: &mut BlockTable,
    blocks: &[BlockID],
)
    requires
        old(pool)@.valid(),
        old(pool)@.has_all(blocks@),
        old(pool)@.can_incref_all(blocks@),
        old(table)@.num_tokens + blocks@.len() * old(table)@.block_size <= usize::MAX,
    ensures
        final(pool)@ == old(pool)@.incref_all(blocks@),
        final(eviction)@ == crate::lists::touch_all(old(eviction)@, blocks@),
        final(table)@ == old(table)@.with_full_blocks(blocks@),
{
    let n: usize = blocks.len();
    proof {
        assert(blocks@.take(0) =~= Seq::empty());
        pool@.lemma_incref_all_empty();
        assert(0 * table@.block_size == 0);
        assert(table@.with_full_blocks(blocks@.take(0)) =~= table@);
    }
    for i in 0..n
        invariant
            n == blocks@.len(),
            old(pool)@.valid(),
            old(pool)@.has_all(blocks@),
            old(pool)@.can_incref_all(blocks@),
            old(table)@.num_tokens + blocks@.len() * old(table)@.block_size <= usize::MAX,
            pool@ == old(pool)@.incref_all(blocks@.take(i as int)),
            eviction@ == crate::lists::touch_all(old(eviction)@, blocks@.take(i as int)),
            table@ == old(table)@.with_full_blocks(blocks@.take(i as int)),
    {
        let ghost some = blocks@.take(i as int);
        let ghost more = blocks@.take(i + 1);
        let ghost bs = table@.block_size;
        proof {
            old(pool)@.lemma_incref_all_step(blocks@, i as int);
            assert(more =~= some.push(blocks@[i as int]));
            crate::lists::lemma_touch_all_push(old(eviction)@, some, blocks@[i as int]);
            assert((i + 1) * bs == i * bs + bs) by (nonlinear_arith);
            assert((i + 1) * bs <= n * bs) by (nonlinear_arith)
                requires
                    i + 1 <= n,
            ;
            assert(1 * bs == bs);
            assert(seq![blocks@[i as int]].len() == 1);
        }
        pool.incref(blocks[i]);
        table.push_full_block(blocks[i]);
        assert(table@ =~= old(table)@.with_full_blocks(more));
        eviction.on_access(&blocks[i]);
    }
    assert(blocks@.take(n as int) =~= blocks@);
}

/// Appends `n` tokens to a table and records the accesses.
fn fill(pool: &mut BlockPool, eviction: &mut LRUEviction, table: &mut BlockTable, n: usize)
    requires
        old(pool)@.valid(),
        old(table)@.wf(),
        n > 0 ==> old(table)@.block_size > 0,
        old(table)@.missing(n as nat) <= old(pool)@.free.len(),
        old(table)@.num_tokens + n <= usize::MAX,
        old(pool)@.total_allocs + old(table)@.missing(n as nat) <= usize::MAX,
    ensures
        final(pool)@ == old(pool)@.allocated_many(old(table)@.missing(n as nat)),
        final(eviction)@ == crate::lists::touch_all(
            old(eviction)@,
            old(table)@.written(old(pool)@, n as nat),
        ),
        final(table)@ == old(table)@.grown(old(pool)@, n as nat),
{
    proof {
        pool@.lemma_allocated_many_zero();
        assert(table@.grown(pool@, 0) =~= table@);
    }
    for i in 0..n
        invariant
            old(pool)@.valid(),
            old(table)@.wf(),
            n > 0 ==> old(table)@.block_size > 0,
            old(table)@.missing(n as nat) <= old(pool)@.free.len(),
            old(table)@.num_tokens + n <= usize::MAX,
            old(pool)@.total_allocs + old(table)@.missing(n as nat) <= usize::MAX,
            pool@ == old(pool)@.allocated_many(old(table)@.missing(i as nat)),
            eviction@ == crate::lists::touch_all(
                old(eviction)@,
                old(table)@.written(old(pool)@, i as nat),
            ),
            table@ == old(table)@.grown(old(pool)@, i as nat),
    {
        proof {
            old(table)@.lemma_missing_ordered((i + 1) as nat, n as nat);
            old(table)@.lemma_grown_step(old(pool)@, i as nat, old(eviction)@);
        }
        table.append_token(pool).unwrap();
        let block_id = table.last_block().unwrap();
        eviction.on_access(&block_id);
    }
}

impl Scheduler {
    /// A scheduler without sequences over a pool of `num_blocks` free blocks.
    pub fn new(num_blocks: u32, block_size: usize) -> (scheduler: Scheduler)
        ensures
            scheduler@ == SchedulerView::fresh(num_blocks as nat, block_size as nat),
            scheduler@.consistent(),
    {
        let scheduler = Scheduler {
            pool: BlockPool::new(num_blocks),
            block_size,
            sequences: HashMap::new(),
            waiting: VecDeque::new(),
            running: Vec::new(),
            next_id: 0,
            eviction: LRUEviction::new(),
            prefix_cache: PrefixCache::new(block_size),
            metrics: Metrics::new(),
        };
        assert(scheduler@ =~= SchedulerView::fresh(num_blocks as nat, block_size as nat));
        scheduler
    }

    /// Alternative constructor from a [`BlockPoolConfig`].
    pub fn with_config(config: BlockPoolConfig) -> (scheduler: Scheduler)
        ensures
            scheduler@ == SchedulerView::fresh(config.num_blocks as nat, config.block_size as nat),
            scheduler@.consistent(),
    {
        Scheduler::new(config.num_blocks, config.block_size)
    }

    /// Number of unique physical blocks currently in use across all sequences.
    pub fn pool_used_blocks_physical(&self) -> (n: usize)
        ensures
            n == self@.used().len(),
    {
        let mut seen: HashSet<u32> = HashSet::new();
        let keys = keys_of(&self.sequences);
        let n: usize = keys.len();
        for i in 0..n
            invariant
                n == keys@.len(),
                keys@.to_set() == self.sequences@.dom(),
                forall|b: u32| #[trigger]
                    seen@.contains(b) <==> exists|j: int|
                        #![trigger keys@[j]]
                        0 <= j < i && self@.holds(keys@[j], BlockID(b)),
        {
            assert(keys@.to_set().contains(keys@[i as int]));
            let seq = self.sequences.get(&keys[i]).unwrap();
            see_all(&mut seen, seq.block_table.blocks());
        }
        proof {
            assert forall|b: u32| #[trigger] self@.used().contains(b) implies seen@.contains(b) by {
                let k = choose|k: i32| #[trigger] self@.holds(k, BlockID(b));
                assert(keys@.to_set().contains(k));
                assert(keys@[keys@.index_of(k)] == k);
            }
            assert(seen@ =~= self@.used());
        }
        seen.len()
    }

    /// Number of slots across all block tables: a shared block counts once for each of them.
    pub fn pool_used_blocks(&self) -> (n: usize)
        requires
            crate::schedule::slots(self@.sequences) <= usize::MAX,
        ensures
            n == crate::schedule::slots(self@.sequences),
    {
        let mut sum: usize = 0;
        let keys = keys_of(&self.sequences);
        let n: usize = keys.len();
        let ghost mut rest = self@.sequences;
        assert(rest.dom() =~= self.sequences@.dom());
        for i in 0..n
            invariant
                n == keys@.len(),
                keys@.no_duplicates(),
                keys@.to_set() == self.sequences@.dom(),
                rest.dom().finite(),
                crate::schedule::slots(self@.sequences) <= usize::MAX,
                sum + crate::schedule::slots(rest) == crate::schedule::slots(self@.sequences),
                forall|k: i32| #[trigger]
                    rest.contains_key(k) <==> self@.sequences.contains_key(k) && forall|j: int|
                        0 <= j < i ==> #[trigger] keys@[j] != k,
                forall|k: i32| #[trigger]
                    rest.contains_key(k) ==> rest[k] == self@.sequences[k],
        {
            proof {
                let key = keys@[i as int];
                assert(keys@.to_set().contains(key));
                assert(rest.contains_key(key));
                crate::lists::lemma_total_remove(rest, crate::schedule::slot_count(), key);
                rest = rest.remove(key);
            }
            let seq = self.sequences.get(&keys[i]).unwrap();
            sum += seq.block_table.len();
        }
        proof {
            assert forall|k: i32| !rest.dom().contains(k) by {
                if rest.contains_key(k) {
                    assert(keys@.to_set().contains(k));
                    assert(keys@[keys@.index_of(k)] == k);
                }
            }
            assert(rest.dom() =~= Set::empty());
        }
        sum
    }

    /// Puts a request in the waiting queue, under a new ID.
    pub fn add_request(&mut self, tokens: Vec<TokenId>) -> (id: SequenceId)
        requires
            old(self).next_id < i32::MAX,
        ensures
            id == SequenceId(old(self).next_id),
            final(self)@ == old(self)@.added(tokens@),
            old(self)@.wf() ==> final(self)@.wf(),
    {
        let seq_id = SequenceId(self.next_id);
        self.sequences.insert(seq_id.0, Sequence::new(seq_id, tokens, self.block_size));
        self.waiting.push_back(seq_id);
        self.next_id += 1;
        proof {
            assert(self@ =~= old(self)@.added(tokens@));
            if old(self)@.wf() {
                old(self)@.lemma_added(tokens@);
            }
        }
        seq_id
    }

    /// Allocates blocks for the full prompt, consulting the prefix cache first.
    /// Moves the sequence from waiting to running.
    pub fn prefill(&mut self, seq_id: SequenceId)
        requires
            old(self)@.wf(),
            old(self)@.can_prefill(seq_id.0),
        ensures
            final(self)@ == old(self)@.prefilled(seq_id.0),
            final(self)@.wf(),
    {
        let ghost k = seq_id.0;
        proof {
            assert(self@.fits(k, self@.sequences[k]));
            self@.lemma_reused(k);
            self@.lemma_prefilled(k);
        }
        let mut seq = self.sequences.remove(&seq_id.0).unwrap();
        let token_count: usize = seq.token_ids.len();
        self.metrics.prefix_total += token_count;

        let (_, matched_blocks) = self.prefix_cache.match_prefix(seq.token_ids.as_slice());
        share(
            &mut self.pool,
            &mut self.eviction,
            &mut seq.block_table,
            matched_blocks.as_slice(),
        );
        let prefix_token_count: usize = matched_blocks.len() * self.block_size;
        self.metrics.prefix_hits += prefix_token_count;

        fill(
            &mut self.pool,
            &mut self.eviction,
            &mut seq.block_table,
            token_count - prefix_token_count,
        );
        proof {
            let shared = old(self)@.shared_table(k);
            let n = old(self)@.uncovered(k);
            crate::lists::lemma_touch_all_add(
                old(self)@.recency,
                matched_blocks@,
                shared.written(old(self)@.pool, n),
            );
            assert(seq@.table =~= old(self)@.prompt_table(k));
        }
        self.prefix_cache.insert(seq.token_ids.as_slice(), seq.block_table.blocks());

        seq.state = SequenceState::Decoding;
        self.sequences.insert(seq_id.0, seq);
        self.waiting = waiting_without(&self.waiting, seq_id);
        self.running.push(seq_id);
        assert(self@ =~= old(self)@.prefilled(k));
    }

    /// Creates a new sequence sharing the parent's block table (every block gains a reference).
    /// Both parent and fork are placed in running and decode independently from this point: a
    /// parent that was not running leaves the waiting queue and is decoding.
    pub fn fork_sequence(&mut self, seq_id: SequenceId) -> (id: SequenceId)
        requires
            old(self)@.wf(),
            old(self)@.sequences.contains_key(seq_id.0),
            old(self)@.pool.can_incref_all(old(self)@.table(seq_id.0).blocks),
            old(self).next_id < i32::MAX,
        ensures
            id == SequenceId(old(self).next_id),
            final(self)@ == old(self)@.forked(seq_id.0),
            final(self)@.wf(),
    {
        let new_id = SequenceId(self.next_id);
        self.next_id += 1;
        assert(self@.fits(seq_id.0, self@.sequences[seq_id.0]));
        let mut parent = self.sequences.remove(&seq_id.0).unwrap();
        let token_ids = parent.token_ids.clone();
        assert(token_ids@ =~= parent.token_ids@);
        let forked_table = parent.block_table.fork(&mut self.pool);
        if !contains(&self.running, seq_id) {
            parent.state = SequenceState::Decoding;
            self.waiting = waiting_without(&self.waiting, seq_id);
            self.running.push(seq_id);
        }
        self.sequences.insert(seq_id.0, parent);
        access_all(&mut self.eviction, forked_table.blocks());
        let new_seq = Sequence {
            id: new_id,
            token_ids,
            block_table: forked_table,
            state: SequenceState::Decoding,
        };
        self.sequences.insert(new_id.0, new_seq);
        self.running.push(new_id);
        proof {
            assert(self@ =~= old(self)@.forked(seq_id.0));
            old(self)@.lemma_forked(seq_id.0);
        }
        new_id
    }

    /// Marks a sequence as finished: drops a reference to each of its blocks and removes it from
    /// running. Blocks that become free are not reused from the prefix cache any more. Call this
    /// when a sequence has generated its full completion.
    pub fn finish_sequence(&mut self, seq_id: SequenceId)
        requires
            old(self)@.wf(),
            old(self)@.sequences.contains_key(seq_id.0),
            old(self)@.pool.can_decref_all(old(self)@.table(seq_id.0).blocks),
        ensures
            final(self)@ == old(self)@.finished(seq_id.0),
            final(self)@.wf(),
    {
        assert(self@.fits(seq_id.0, self@.sequences[seq_id.0]));
        let mut seq = self.sequences.remove(&seq_id.0).unwrap();
        let freed = give_up(&mut self.pool, &mut self.eviction, seq.block_table.blocks());
        forget(&mut self.prefix_cache, freed.as_slice());
        seq.block_table.clear();
        seq.state = SequenceState::Finished;
        self.sequences.insert(seq_id.0, seq);
        self.running = running_without(&self.running, seq_id);
        proof {
            assert(self@ =~= old(self)@.finished(seq_id.0));
            old(self)@.lemma_finished(seq_id.0);
        }
    }

    /// A sequence that holds `block_id`, if there is one.
    fn find_holder(&self, block_id: BlockID) -> (holder: Option<i32>)
        ensures
            holder matches Some(k) ==> self@.holds(k, block_id),
            holder is None ==> forall|k: i32| !#[trigger] self@.holds(k, block_id),
    {
        let keys = keys_of(&self.sequences);
        let n: usize = keys.len();
        for i in 0..n
            invariant
                n == keys@.len(),
                keys@.to_set() == self.sequences@.dom(),
                forall|j: int| 0 <= j < i ==> !self@.holds(#[trigger] keys@[j], block_id),
        {
            assert(keys@.to_set().contains(keys@[i as int]));
            let seq = self.sequences.get(&keys[i]).unwrap();
            if holds_block(seq.block_table.blocks(), block_id) {
                return Some(keys[i]);
            }
        }
        assert forall|k: i32| !#[trigger] self@.holds(k, block_id) by {
            if self@.sequences.contains_key(k) {
                assert(keys@.to_set().contains(k));
                assert(keys@[keys@.index_of(k)] == k);
            }
        }
        None
    }

    /// Evicts a sequence to free blocks when the pool is full: one that holds the least recently
    /// accessed block with a single reference. There must be one, else
    /// [`SchedulerError::NothingEvictable`] is raised as a panic.
    pub fn handle_pool_full(&mut self)
        requires
            old(self)@.wf(),
            old(self)@.can_preempt(),
        ensures
            exists|k: i32| #[trigger]
                old(self)@.preemptible(k) && final(self)@ == old(self)@.preempted(k),
            final(self)@.wf(),
    {
        let victim_id = self.eviction.select_victim(&self.pool).ok_or(
            SchedulerError::NothingEvictable,
        ).expect("pool full and no blocks eligible for eviction");
        assert(self@ =~= old(self)@);
        let victim: i32 = self.find_holder(victim_id).unwrap();
        assert(self@.preemptible(victim));
        assert(self@.fits(victim, self@.sequences[victim]));
        let mut seq = self.sequences.remove(&victim).unwrap();
        give_up(&mut self.pool, &mut self.eviction, seq.block_table.blocks());
        forget(&mut self.prefix_cache, seq.block_table.blocks());
        self.metrics.blocks_evicted += 1;
        seq.state = SequenceState::Waiting;
        seq.block_table.clear();
        self.sequences.insert(victim, seq);
        self.waiting.push_back(SequenceId(victim));
        self.running = running_without(&self.running, SequenceId(victim));
        proof {
            assert(self@ =~= old(self)@.preempted(victim));
            old(self)@.lemma_preempted(victim);
        }
    }

    /// Appends a token to the table of a sequence and records the access to its last block.
    /// Fails, and changes nothing, if a block is needed and none is free.
    fn extend(&mut self, seq_id: SequenceId, cow: bool) -> (result: Result<(), PoolFull>)
        requires
            old(self)@.wf(),
            old(self)@.sequences.contains_key(seq_id.0),
            old(self)@.block_size > 0,
            old(self)@.table(seq_id.0).append_in_limits(old(self)@.pool, cow),
        ensures
            result is Ok <==> old(self)@.can_extend(seq_id.0, cow),
            result is Ok ==> final(self)@ == old(self)@.extended(seq_id.0, cow),
            result is Err ==> final(self)@ == old(self)@,
            final(self)@.wf(),
    {
        proof {
            let table = self@.table(seq_id.0);
            assert(self@.fits(seq_id.0, self@.sequences[seq_id.0]));
            crate::lists::lemma_blocks_for_step(table.num_tokens, table.block_size);
            if !table.at_boundary() {
                assert(self@.pool.has(table.blocks[table.blocks.len() - 1]));
            }
        }
        let mut seq = self.sequences.remove(&seq_id.0).unwrap();
        let result = if cow {
            seq.block_table.append_token_cow(&mut self.pool)
        } else {
            seq.block_table.append_token(&mut self.pool)
        };
        let last_block = seq.block_table.last_block();
        self.sequences.insert(seq_id.0, seq);
        match result {
            Ok(()) => {
                proof {
                    old(self)@.table(seq_id.0).lemma_appended(old(self)@.pool, cow);
                    old(self)@.lemma_extended(seq_id.0, cow);
                }
                self.eviction.on_access(&last_block.unwrap());
                assert(self@ =~= old(self)@.extended(seq_id.0, cow));
                Ok(())
            },
            Err(full) => {
                assert(self@ =~= old(self)@);
                Err(full)
            },
        }
    }

    /// Decodes one token of a running sequence, preempting a sequence if the pool is full.
    fn decode(&mut self, seq_id: SequenceId, cow: bool)
        requires
            old(self)@.wf(),
            old(self)@.sequences.contains_key(seq_id.0),
            old(self)@.generated(seq_id.0).can_make_room(seq_id.0, cow),
        ensures
            old(self)@.generated(seq_id.0).makes_room(seq_id.0, cow, final(self)@),
            final(self)@.wf(),
    {
        let mut seq = self.sequences.remove(&seq_id.0).unwrap();
        seq.token_ids.push(TokenId(0));
        self.sequences.insert(seq_id.0, seq);
        let ghost here = old(self)@.generated(seq_id.0);
        proof {
            assert(self@ =~= here);
            old(self)@.lemma_generated(seq_id.0);
        }
        match self.extend(seq_id, cow) {
            Ok(()) => {},
            Err(PoolFull) => {
                self.handle_pool_full();
                let ghost v = choose|v: i32| #[trigger]
                    here.preemptible(v) && self@ == here.preempted(v);
                if contains(&self.running, seq_id) {
                    self.extend(seq_id, cow).unwrap();
                }
                assert(here.preemptible(v));
            },
        }
    }

    /// Advances every running sequence by one token.
    fn advance(&mut self, cow: bool)
        requires
            old(self)@.wf(),
            old(self)@.can_decode(old(self)@.running, cow),
        ensures
            old(self)@.decoded(old(self)@.running, cow, final(self)@),
            final(self)@.wf(),
    {
        let running = self.running.clone();
        let n: usize = running.len();
        proof {
            assert(running@ =~= self.running@);
            assert(running@.skip(0) =~= running@);
        }
        let ghost mut now = self@;
        let mut i: usize = 0;
        while i < n
            invariant
                i <= n,
                n == running@.len(),
                running@ == old(self)@.running,
                now == self@,
                now.wf(),
                now.can_decode(running@.skip(i as int), cow),
                forall|post: SchedulerView| #[trigger]
                    now.decoded(running@.skip(i as int), cow, post) ==> old(self)@.decoded(
                        running@,
                        cow,
                        post,
                    ),
            decreases n - i,
        {
            let seq_id = running[i];
            let ghost pre = self@;
            let ghost todo = running@.skip(i as int);
            proof {
                assert(todo.first() == seq_id);
                assert(todo.drop_first() =~= running@.skip(i + 1));
            }
            if contains(&self.running, seq_id) {
                proof {
                    let j = self@.running.index_of(seq_id);
                    assert(self@.sequences.contains_key(self@.running[j].0));
                }
                self.decode(seq_id, cow);
                assert(pre.generated(seq_id.0).makes_room(seq_id.0, cow, self@));
            }
            proof {
                now = self@;
                assert forall|post: SchedulerView| #[trigger]
                    now.decoded(running@.skip(i + 1), cow, post) implies old(self)@.decoded(
                    running@,
                    cow,
                    post,
                ) by {
                    assert(pre.decoded(todo, cow, post));
                }
            }
            i += 1;
        }
        assert(now.decoded(running@.skip(n as int), cow, now));
    }

    /// Advances every running sequence by one decode token using standard allocation, in the
    /// order in which they run. When the pool is full, a sequence is preempted.
    pub fn step(&mut self)
        requires
            old(self)@.wf(),
            old(self)@.can_decode(old(self)@.running, false),
        ensures
            old(self)@.decoded(old(self)@.running, false, final(self)@),
            final(self)@.wf(),
    {
        self.advance(false);
    }

    /// Like [`step`](Scheduler::step) but copies on write: a shared last block is replaced by a
    /// private copy before a token is written into it.
    pub fn step_cow(&mut self)
        requires
            old(self)@.wf(),
            old(self)@.can_decode(old(self)@.running, true),
        ensures
            old(self)@.decoded(old(self)@.running, true, final(self)@),
            final(self)@.wf(),
    {
        self.advance(true);
    }
}

} // verus!
