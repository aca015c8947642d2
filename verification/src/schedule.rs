//! The states of the scheduler and the transitions between them.
use crate::block_pool::{BlockID, PoolView};
use crate::block_table::TableView;
use crate::prefix_cache::CacheView;
use crate::sequence::{SequenceId, SequenceState, TokenId};
use vstd::prelude::*;

verus! {

/// The state of a sequence.
#[verifier::ext_equal]
pub struct SequenceView {
    pub id: SequenceId,
    pub token_ids: Seq<TokenId>,
    pub table: TableView,
    pub state: SequenceState,
}

/// The state of a scheduler.
#[verifier::ext_equal]
pub struct SchedulerView {
    pub pool: PoolView,
    pub sequences: Map<i32, SequenceView>,
    /// Sequences waiting to be prefilled.
    pub waiting: Seq<SequenceId>,
    /// Sequences in the decode loop.
    pub running: Seq<SequenceId>,
    pub block_size: nat,
    pub next_id: i32,
    /// The blocks that the eviction policy knows, least recently accessed first.
    pub recency: Seq<BlockID>,
    pub cache: CacheView,
    pub prefix_hits: nat,
    pub prefix_total: nat,
    pub blocks_evicted: nat,
}

/// How many slots of a sequence refer to `b`.
pub open spec fn refers_to(b: BlockID) -> spec_fn(SequenceView) -> nat {
    |s: SequenceView| crate::lists::occurrences(s.table.blocks, b)
}

/// How many times the block tables of `sequences` refer to `b`.
pub open spec fn references(sequences: Map<i32, SequenceView>, b: BlockID) -> nat {
    crate::lists::total(sequences, refers_to(b))
}

/// How many slots a sequence has.
pub open spec fn slot_count() -> spec_fn(SequenceView) -> nat {
    |s: SequenceView| s.table.blocks.len()
}

/// The number of slots of all block tables of `sequences`.
pub open spec fn slots(sequences: Map<i32, SequenceView>) -> nat {
    crate::lists::total(sequences, slot_count())
}

impl SchedulerView {
    /// A scheduler without sequences.
    pub open spec fn fresh(num_blocks: nat, block_size: nat) -> SchedulerView {
        SchedulerView {
            pool: PoolView::fresh(num_blocks),
            sequences: Map::empty(),
            waiting: Seq::empty(),
            running: Seq::empty(),
            block_size,
            next_id: 0,
            recency: Seq::empty(),
            cache: CacheView::empty(block_size),
            prefix_hits: 0,
            prefix_total: 0,
            blocks_evicted: 0,
        }
    }

    /// Sequence `s`, known under `k`, fits this scheduler.
    pub open spec fn fits(self, k: i32, s: SequenceView) -> bool {
        &&& s.id == SequenceId(k)
        &&& 0 <= k < self.next_id
        &&& s.table.wf()
        &&& s.table.block_size == self.block_size
        &&& self.pool.has_all(s.table.blocks)
    }

    /// The parts of the scheduler fit together: they agree on the block size, name blocks of the
    /// pool only, and the queues name known sequences only.
    pub open spec fn wf(self) -> bool {
        &&& self.pool.valid()
        &&& 0 <= self.next_id
        &&& self.sequences.dom().finite()
        &&& forall|k: i32| #[trigger] self.sequences.contains_key(k) ==> self.fits(k, self.sequences[k])
        &&& self.knows_all(self.waiting)
        &&& self.knows_all(self.running)
        &&& self.pool.has_all(self.recency)
        &&& self.cache.wf()
        &&& self.cache.block_size == self.block_size
        &&& forall|path: Seq<TokenId>|
            (#[trigger] self.cache.block_at(path)) matches Some(b) ==> self.pool.has(b)
    }

    /// Every sequence of `ids` is known.
    pub open spec fn knows_all(self, ids: Seq<SequenceId>) -> bool {
        forall|i: int| 0 <= i < ids.len() ==> self.sequences.contains_key((#[trigger] ids[i]).0)
    }

    /// The reference count of every block is the number of slots that refer to it, and the free
    /// list holds exactly the blocks that no slot refers to.
    pub open spec fn accounted(self) -> bool {
        &&& self.pool.wf()
        &&& forall|b: BlockID| #[trigger]
            self.pool.has(b) ==> self.pool.count(b) == references(self.sequences, b)
    }

    /// The prefix cache holds no block that is free.
    pub open spec fn cache_live(self) -> bool {
        forall|path: Seq<TokenId>|
            (#[trigger] self.cache.block_at(path)) matches Some(b) ==> self.pool.count(b) > 0
    }

    /// The eviction policy knows exactly the blocks that are referred to, each once.
    pub open spec fn orderly(self) -> bool {
        &&& self.recency.no_duplicates()
        &&& forall|b: BlockID| #[trigger]
            self.pool.has(b) ==> (self.recency.contains(b) <==> self.pool.count(b) > 0)
    }

    /// The parts fit together, every reference is accounted for, and neither the prefix cache nor
    /// the eviction policy knows a free block.
    pub open spec fn consistent(self) -> bool {
        &&& self.wf()
        &&& self.accounted()
        &&& self.cache_live()
        &&& self.orderly()
    }

    /// The table of sequence `k`.
    pub open spec fn table(self, k: i32) -> TableView {
        self.sequences[k].table
    }

    /// Sequence `k` with another table and state.
    pub open spec fn with_table(self, k: i32, table: TableView, state: SequenceState) -> Map<
        i32,
        SequenceView,
    > {
        self.sequences.insert(k, SequenceView { table, state, ..self.sequences[k] })
    }

    /// A request with the prompt `tokens` has been put in the waiting queue.
    pub open spec fn added(self, tokens: Seq<TokenId>) -> SchedulerView {
        let id = SequenceId(self.next_id);
        SchedulerView {
            sequences: self.sequences.insert(
                self.next_id,
                SequenceView {
                    id,
                    token_ids: tokens,
                    table: TableView::empty(self.block_size),
                    state: SequenceState::Waiting,
                },
            ),
            waiting: self.waiting.push(id),
            next_id: (self.next_id + 1) as i32,
            ..self
        }
    }

    /// The blocks of the prefix cache that the prompt of sequence `k` reuses.
    pub open spec fn reused(self, k: i32) -> Seq<BlockID> {
        self.cache.matched_blocks(self.sequences[k].token_ids)
    }

    /// The number of tokens of sequence `k` that the prefix cache does not cover.
    pub open spec fn uncovered(self, k: i32) -> nat {
        (self.sequences[k].token_ids.len() - self.reused(k).len() * self.block_size) as nat
    }

    /// The table of sequence `k` once it shares the reused blocks.
    pub open spec fn shared_table(self, k: i32) -> TableView {
        self.table(k).with_full_blocks(self.reused(k))
    }

    /// The table of sequence `k` once there is a place for its whole prompt.
    pub open spec fn prompt_table(self, k: i32) -> TableView {
        self.shared_table(k).grown(self.pool, self.uncovered(k))
    }

    /// Sequence `k` can be prefilled: it is known, tokens fit in blocks, there are enough free
    /// blocks for what the cache does not cover, and the counters stay within machine limits.
    pub open spec fn can_prefill(self, k: i32) -> bool {
        let tokens = self.sequences[k].token_ids;
        let missing = self.shared_table(k).missing(self.uncovered(k));
        &&& self.sequences.contains_key(k)
        &&& tokens.len() > 0 ==> self.block_size > 0
        &&& missing <= self.pool.free.len()
        &&& self.pool.can_incref_all(self.reused(k))
        &&& self.pool.total_allocs + missing <= usize::MAX
        &&& self.table(k).num_tokens + tokens.len() <= usize::MAX
        &&& self.prefix_total + tokens.len() <= usize::MAX
        &&& self.prefix_hits + self.reused(k).len() * self.block_size <= usize::MAX
    }

    /// Sequence `k` has been prefilled: it shares the reused blocks, has fresh ones for the other
    /// tokens, its prompt is in the prefix cache, and it has moved from waiting to running.
    pub open spec fn prefilled(self, k: i32) -> SchedulerView {
        let tokens = self.sequences[k].token_ids;
        let reused = self.reused(k);
        let shared = self.shared_table(k);
        let n = self.uncovered(k);
        let table = self.prompt_table(k);
        SchedulerView {
            pool: self.pool.incref_all(reused).allocated_many(shared.missing(n)),
            sequences: self.with_table(k, table, SequenceState::Decoding),
            waiting: crate::lists::without(self.waiting, SequenceId(k)),
            running: self.running.push(SequenceId(k)),
            recency: crate::lists::touch_all(self.recency, reused + shared.written(self.pool, n)),
            cache: self.cache.inserted(tokens, table.blocks),
            prefix_hits: self.prefix_hits + reused.len() * self.block_size,
            prefix_total: self.prefix_total + tokens.len(),
            ..self
        }
    }

    /// Sequence `k` takes part in decoding: if it did not run, it has left the waiting queue and
    /// is running.
    pub open spec fn joined(self, k: i32) -> SchedulerView {
        if self.running.contains(SequenceId(k)) {
            self
        } else {
            SchedulerView {
                sequences: self.with_table(k, self.table(k), SequenceState::Decoding),
                waiting: crate::lists::without(self.waiting, SequenceId(k)),
                running: self.running.push(SequenceId(k)),
                ..self
            }
        }
    }

    /// Sequence `k` has been forked: a new sequence shares its tokens and its blocks, and both
    /// are running.
    pub open spec fn forked(self, k: i32) -> SchedulerView {
        let id = SequenceId(self.next_id);
        let blocks = self.table(k).blocks;
        SchedulerView {
            pool: self.pool.incref_all(blocks),
            sequences: self.joined(k).sequences.insert(
                self.next_id,
                SequenceView { id, state: SequenceState::Decoding, ..self.sequences[k] },
            ),
            running: self.joined(k).running.push(id),
            next_id: (self.next_id + 1) as i32,
            recency: crate::lists::touch_all(self.recency, blocks),
            ..self.joined(k)
        }
    }

    /// Sequence `k` has been finished: it has given up its blocks and does not run any more. The
    /// eviction policy and the prefix cache have forgotten the blocks that have become free.
    pub open spec fn finished(self, k: i32) -> SchedulerView {
        let blocks = self.table(k).blocks;
        let freed = self.pool.freed(blocks);
        SchedulerView {
            pool: self.pool.decref_all(blocks),
            sequences: self.with_table(
                k,
                TableView::empty(self.table(k).block_size),
                SequenceState::Finished,
            ),
            running: crate::lists::without(self.running, SequenceId(k)),
            recency: crate::lists::without_all(self.recency, freed),
            cache: self.cache.evicted(freed),
            ..self
        }
    }

    /// Sequence `k` has been preempted: it has given up its blocks, the prefix cache has forgotten
    /// them, the eviction policy those that have become free, and it waits to be prefilled again.
    pub open spec fn preempted(self, k: i32) -> SchedulerView {
        let blocks = self.table(k).blocks;
        SchedulerView {
            pool: self.pool.decref_all(blocks),
            sequences: self.with_table(
                k,
                TableView::empty(self.table(k).block_size),
                SequenceState::Waiting,
            ),
            waiting: self.waiting.push(SequenceId(k)),
            running: crate::lists::without(self.running, SequenceId(k)),
            recency: crate::lists::without_all(self.recency, self.pool.freed(blocks)),
            cache: self.cache.evicted(blocks),
            blocks_evicted: self.blocks_evicted + 1,
            ..self
        }
    }

    /// The block to give up: the least recently accessed one with exactly one reference.
    pub open spec fn victim(self) -> Option<BlockID> {
        crate::eviction::first_exclusive(self.recency, self.pool)
    }

    /// Sequence `k` is one that gives up block `b` when it is preempted.
    pub open spec fn holds(self, k: i32, b: BlockID) -> bool {
        self.sequences.contains_key(k) && self.table(k).blocks.contains(b)
    }

    /// The indices of the blocks that block tables refer to.
    pub open spec fn used(self) -> Set<u32> {
        Set::new(|i: u32| exists|k: i32| #[trigger] self.holds(k, BlockID(i)))
    }

    /// Sequence `k` may be the one to preempt.
    pub open spec fn preemptible(self, k: i32) -> bool {
        self.victim() matches Some(b) && self.holds(k, b)
    }

    /// Some sequence can be preempted: there is a victim, a sequence holds it, and whichever does
    /// has a reference for each of its slots.
    pub open spec fn can_preempt(self) -> bool {
        &&& exists|k: i32| #[trigger] self.preemptible(k)
        &&& forall|k: i32| #[trigger]
            self.preemptible(k) ==> self.pool.can_decref_all(self.table(k).blocks)
        &&& self.blocks_evicted < usize::MAX
    }

    /// Sequence `k` has generated a token that has no place in its table yet.
    pub open spec fn generated(self, k: i32) -> SchedulerView {
        let s = self.sequences[k];
        SchedulerView {
            sequences: self.sequences.insert(
                k,
                SequenceView { token_ids: s.token_ids.push(TokenId(0)), ..s },
            ),
            ..self
        }
    }

    /// A token can be appended to the table of sequence `k`.
    pub open spec fn can_extend(self, k: i32, cow: bool) -> bool {
        self.table(k).can_append(self.pool, cow)
    }

    /// A token has been appended to the table of sequence `k`.
    pub open spec fn extended(self, k: i32, cow: bool) -> SchedulerView {
        let (table, pool) = self.table(k).appended(self.pool, cow);
        SchedulerView {
            pool,
            sequences: self.with_table(k, table, self.sequences[k].state),
            recency: crate::lists::touch(self.recency, table.blocks.last()),
            ..self
        }
    }

    /// `post` can be the state after sequence `k` has made room for a generated token, if need be
    /// by preempting a sequence. If that is `k` itself, nothing is appended.
    pub open spec fn makes_room(self, k: i32, cow: bool, post: SchedulerView) -> bool {
        if self.can_extend(k, cow) {
            post == self.extended(k, cow)
        } else {
            exists|v: i32|
                {
                    let rest = self.preempted(v);
                    &&& #[trigger] self.preemptible(v)
                    &&& post == if rest.running.contains(SequenceId(k)) {
                        rest.extended(k, cow)
                    } else {
                        rest
                    }
                }
        }
    }

    /// Sequence `k` can make room for a generated token.
    pub open spec fn can_make_room(self, k: i32, cow: bool) -> bool {
        &&& self.block_size > 0
        &&& self.table(k).append_in_limits(self.pool, cow)
        &&& !self.can_extend(k, cow) ==> {
            &&& self.can_preempt()
            &&& forall|v: i32| #[trigger]
                self.preemptible(v) && self.preempted(v).running.contains(SequenceId(k)) ==> {
                    &&& self.preempted(v).can_extend(k, cow)
                    &&& self.preempted(v).table(k).append_in_limits(self.preempted(v).pool, cow)
                }
        }
    }

    /// `post` can be the state after the sequences of `todo`, first to last, have each decoded a
    /// token. One that does not run any more when its turn comes is passed over.
    pub open spec fn decoded(self, todo: Seq<SequenceId>, cow: bool, post: SchedulerView) -> bool
        decreases todo.len(),
    {
        if todo.len() == 0 {
            post == self
        } else if self.running.contains(todo.first()) {
            exists|mid: SchedulerView|
                {
                    &&& #[trigger] self.generated(todo.first().0).makes_room(
                        todo.first().0,
                        cow,
                        mid,
                    )
                    &&& mid.decoded(todo.drop_first(), cow, post)
                }
        } else {
            self.decoded(todo.drop_first(), cow, post)
        }
    }

    /// The sequences of `todo` can each decode a token.
    pub open spec fn can_decode(self, todo: Seq<SequenceId>, cow: bool) -> bool
        decreases todo.len(),
    {
        if todo.len() == 0 {
            true
        } else if self.running.contains(todo.first()) {
            let here = self.generated(todo.first().0);
            &&& here.can_make_room(todo.first().0, cow)
            &&& forall|mid: SchedulerView| #[trigger]
                here.makes_room(todo.first().0, cow, mid) ==> mid.can_decode(todo.drop_first(), cow)
        } else {
            self.can_decode(todo.drop_first(), cow)
        }
    }

    /// `post` can be the state after one operation of the scheduler.
    pub open spec fn steps_to(self, post: SchedulerView) -> bool {
        ||| self.next_id < i32::MAX && exists|tokens: Seq<TokenId>|
            post == #[trigger] self.added(tokens)
        ||| exists|k: i32| self.can_prefill(k) && post == #[trigger] self.prefilled(k)
        ||| exists|k: i32|
            {
                &&& self.sequences.contains_key(k)
                &&& self.pool.can_incref_all(self.table(k).blocks)
                &&& self.next_id < i32::MAX
                &&& post == #[trigger] self.forked(k)
            }
        ||| exists|k: i32|
            {
                &&& self.sequences.contains_key(k)
                &&& self.pool.can_decref_all(self.table(k).blocks)
                &&& post == #[trigger] self.finished(k)
            }
        ||| self.can_preempt() && exists|k: i32|
            self.preemptible(k) && post == #[trigger] self.preempted(k)
        ||| exists|cow: bool|
            self.can_decode(self.running, cow) && #[trigger] self.decoded(self.running, cow, post)
    }
}

impl SchedulerView {
    pub proof fn lemma_added(self, tokens: Seq<TokenId>)
        requires
            self.wf(),
            self.next_id < i32::MAX,
        ensures
            self.added(tokens).wf(),
    {
        let post = self.added(tokens);
        if self.block_size > 0 {
            crate::lists::lemma_blocks_for_step(0, self.block_size);
        }
        assert(post.sequences.dom() =~= self.sequences.dom().insert(self.next_id));
    }

    /// What a prefill relies on.
    pub proof fn lemma_reused(self, k: i32)
        requires
            self.wf(),
            self.sequences.contains_key(k),
        ensures
            self.pool.has_all(self.reused(k)),
            self.reused(k).len() * self.block_size <= self.sequences[k].token_ids.len(),
            self.shared_table(k).wf(),
            self.shared_table(k).block_size == self.block_size,
            self.pool.has_all(self.shared_table(k).blocks),
            self.pool.incref_all(self.reused(k)).valid(),
            forall|n: nat| #[trigger]
                self.pool.incref_all(self.reused(k)).upcoming(n) == self.pool.upcoming(n),
    {
        let tokens = self.sequences[k].token_ids;
        let reused = self.reused(k);
        assert(self.fits(k, self.sequences[k]));
        self.cache.lemma_covered(tokens);
        assert forall|i: int| 0 <= i < reused.len() implies self.pool.has(#[trigger] reused[i]) by {
            assert(self.cache.block_at(tokens.take((i + 1) * self.block_size)) == Some(reused[i]));
        }
        self.table(k).lemma_with_full_blocks(reused);
        let blocks = self.shared_table(k).blocks;
        assert forall|i: int| 0 <= i < blocks.len() implies self.pool.has(#[trigger] blocks[i]) by {
            if i < self.table(k).blocks.len() {
                assert(self.pool.has(self.table(k).blocks[i]));
            } else {
                assert(self.pool.has(reused[i - self.table(k).blocks.len()]));
            }
        }
        lemma_has_all(self.pool, self.pool.incref_all(reused));
        assert forall|n: nat| #[trigger]
            self.pool.incref_all(reused).upcoming(n) == self.pool.upcoming(n) by {
            assert(self.pool.incref_all(reused).upcoming(n) =~= self.pool.upcoming(n));
        }
    }

    pub proof fn lemma_prefilled(self, k: i32)
        requires
            self.wf(),
            self.can_prefill(k),
        ensures
            self.prefilled(k).wf(),
            self.sequences[k].token_ids.len() > 0 ==> self.prompt_table(k).blocks.len()
                >= self.sequences[k].token_ids.len() / self.block_size,
    {
        let post = self.prefilled(k);
        let tokens = self.sequences[k].token_ids;
        let reused = self.reused(k);
        let shared = self.shared_table(k);
        let n = self.uncovered(k);
        let table = self.prompt_table(k);
        assert(self.fits(k, self.sequences[k]));
        self.lemma_reused(k);
        shared.lemma_grown(self.pool, n);
        self.pool.incref_all(reused).lemma_allocated_many(shared.missing(n));
        lemma_has_all(self.pool, post.pool);
        assert(post.sequences.dom() =~= self.sequences.dom());
        if tokens.len() > 0 {
            let bs = self.block_size as int;
            crate::lists::lemma_blocks_for_step(table.num_tokens, self.block_size);
            vstd::arithmetic::div_mod::lemma_div_is_ordered(
                tokens.len() as int,
                table.num_tokens as int,
                bs,
            );
        }
        self.cache.lemma_inserted_wf(tokens, table.blocks);
        assert forall|path: Seq<TokenId>|
            (#[trigger] post.cache.block_at(path)) matches Some(b) ==> post.pool.has(b) by {
            if let Some(b) = post.cache.block_at(path) {
                if self.cache.block_at(path) != Some(b) {
                    assert(self.pool.has(table.blocks[table.blocks.index_of(b)]));
                }
            }
        }
        let accessed = reused + shared.written(self.pool, n);
        crate::lists::lemma_touch_all(self.recency, accessed);
        assert forall|b: BlockID| #[trigger] accessed.contains(b) implies table.blocks.contains(b)
            || reused.contains(b) by {
            let i = accessed.index_of(b);
            if i < reused.len() {
                assert(reused[i] == b);
            } else {
                assert(shared.written(self.pool, n)[i - reused.len()] == b);
                assert(shared.written(self.pool, n).contains(b));
            }
        }
        lemma_contained(self.pool, table.blocks, reused, accessed);
        lemma_contained(post.pool, self.recency, accessed, post.recency);
        crate::lists::lemma_without(self.waiting, SequenceId(k));
        self.lemma_known(self.waiting, post.waiting, post);
        assert forall|j: i32| #[trigger] post.sequences.contains_key(j) implies post.fits(
            j,
            post.sequences[j],
        ) by {
            assert(self.fits(j, self.sequences[j]));
        }
    }

    pub proof fn lemma_forked(self, k: i32)
        requires
            self.wf(),
            self.sequences.contains_key(k),
            self.pool.can_incref_all(self.table(k).blocks),
            self.next_id < i32::MAX,
        ensures
            self.forked(k).wf(),
    {
        let post = self.forked(k);
        let blocks = self.table(k).blocks;
        assert(self.fits(k, self.sequences[k]));
        assert(post.sequences.dom() =~= self.sequences.dom().insert(self.next_id));
        crate::lists::lemma_without(self.waiting, SequenceId(k));
        self.lemma_known(self.waiting, post.waiting, post);
        crate::lists::lemma_touch_all(self.recency, blocks);
        lemma_has_all(self.pool, post.pool);
        lemma_contained(post.pool, self.recency, blocks, post.recency);
        assert forall|j: i32| #[trigger] post.sequences.contains_key(j) implies post.fits(
            j,
            post.sequences[j],
        ) by {
            if j != self.next_id {
                assert(self.fits(j, self.sequences[j]));
            }
        }
    }

    pub proof fn lemma_finished(self, k: i32)
        requires
            self.wf(),
            self.sequences.contains_key(k),
            self.pool.can_decref_all(self.table(k).blocks),
        ensures
            self.finished(k).wf(),
    {
        let post = self.finished(k);
        let blocks = self.table(k).blocks;
        assert(self.fits(k, self.sequences[k]));
        assert(post.sequences.dom() =~= self.sequences.dom());
        self.pool.lemma_decref_all(blocks);
        lemma_has_all(self.pool, post.pool);
        crate::lists::lemma_without_all(self.recency, self.pool.freed(blocks));
        lemma_contained(post.pool, self.recency, Seq::empty(), post.recency);
        crate::lists::lemma_without(self.running, SequenceId(k));
        self.lemma_known(self.running, post.running, post);
        if self.block_size > 0 {
            crate::lists::lemma_blocks_for_step(0, self.block_size);
        }
        assert forall|j: i32| #[trigger] post.sequences.contains_key(j) implies post.fits(
            j,
            post.sequences[j],
        ) by {
            assert(self.fits(j, self.sequences[j]));
        }
        self.cache.lemma_evicted(self.pool.freed(blocks));
    }

    pub proof fn lemma_preempted(self, k: i32)
        requires
            self.wf(),
            self.sequences.contains_key(k),
            self.pool.can_decref_all(self.table(k).blocks),
        ensures
            self.preempted(k).wf(),
    {
        let post = self.preempted(k);
        let blocks = self.table(k).blocks;
        assert(self.fits(k, self.sequences[k]));
        assert(post.sequences.dom() =~= self.sequences.dom());
        self.pool.lemma_decref_all(blocks);
        lemma_has_all(self.pool, post.pool);
        crate::lists::lemma_without_all(self.recency, self.pool.freed(blocks));
        lemma_contained(post.pool, self.recency, Seq::empty(), post.recency);
        crate::lists::lemma_without(self.running, SequenceId(k));
        self.lemma_known(self.running, post.running, post);
        if self.block_size > 0 {
            crate::lists::lemma_blocks_for_step(0, self.block_size);
        }
        assert forall|j: i32| #[trigger] post.sequences.contains_key(j) implies post.fits(
            j,
            post.sequences[j],
        ) by {
            assert(self.fits(j, self.sequences[j]));
        }
        self.cache.lemma_evicted(blocks);
    }

    pub proof fn lemma_generated(self, k: i32)
        requires
            self.wf(),
            self.sequences.contains_key(k),
        ensures
            self.generated(k).wf(),
    {
        let post = self.generated(k);
        assert(self.fits(k, self.sequences[k]));
        assert(post.sequences.dom() =~= self.sequences.dom());
        assert forall|j: i32| #[trigger] post.sequences.contains_key(j) implies post.fits(
            j,
            post.sequences[j],
        ) by {
            assert(self.fits(j, self.sequences[j]));
        }
    }

    pub proof fn lemma_extended(self, k: i32, cow: bool)
        requires
            self.wf(),
            self.sequences.contains_key(k),
            self.block_size > 0,
            self.can_extend(k, cow),
        ensures
            self.extended(k, cow).wf(),
    {
        let post = self.extended(k, cow);
        let table = post.table(k);
        assert(self.fits(k, self.sequences[k]));
        self.table(k).lemma_appended(self.pool, cow);
        assert(post.sequences.dom() =~= self.sequences.dom());
        lemma_has_all(self.pool, post.pool);
        crate::lists::lemma_touch(self.recency, table.blocks.last());
        assert(table.blocks.contains(table.blocks[table.blocks.len() - 1]));
        lemma_contained(post.pool, self.recency, table.blocks, post.recency);
        assert forall|j: i32| #[trigger] post.sequences.contains_key(j) implies post.fits(
            j,
            post.sequences[j],
        ) by {
            assert(self.fits(j, self.sequences[j]));
        }
    }

    /// A queue that lost members still names known sequences only.
    proof fn lemma_known(self, ids: Seq<SequenceId>, rest: Seq<SequenceId>, post: SchedulerView)
        requires
            self.knows_all(ids),
            self.sequences.dom().subset_of(post.sequences.dom()),
            forall|id: SequenceId| #[trigger] rest.contains(id) ==> ids.contains(id),
        ensures
            post.knows_all(rest),
    {
        assert forall|i: int| 0 <= i < rest.len() implies post.sequences.contains_key(
            (#[trigger] rest[i]).0,
        ) by {
            assert(rest.contains(rest[i]));
            let j = ids.index_of(rest[i]);
            assert(self.sequences.contains_key(ids[j].0));
            assert(self.sequences.dom().contains(ids[j].0));
        }
    }
}

/// Pools of the same size have the same blocks.
proof fn lemma_has_all(pool: PoolView, post: PoolView)
    requires
        pool.refs.len() == post.refs.len(),
    ensures
        forall|b: BlockID| pool.has(b) == #[trigger] post.has(b),
        forall|blocks: Seq<BlockID>| pool.has_all(blocks) ==> #[trigger] post.has_all(blocks),
{
    assert forall|blocks: Seq<BlockID>| pool.has_all(blocks) implies #[trigger] post.has_all(
        blocks,
    ) by {
        assert forall|i: int| 0 <= i < blocks.len() implies post.has(#[trigger] blocks[i]) by {
            assert(pool.has(blocks[i]));
        }
    }
}

/// Blocks that come from `a` and `b` are of the pool if those are.
proof fn lemma_contained(pool: PoolView, a: Seq<BlockID>, b: Seq<BlockID>, c: Seq<BlockID>)
    requires
        pool.has_all(a),
        pool.has_all(b),
        forall|x: BlockID| #[trigger] c.contains(x) ==> a.contains(x) || b.contains(x),
    ensures
        pool.has_all(c),
{
    assert forall|i: int| 0 <= i < c.len() implies pool.has(#[trigger] c[i]) by {
        let x = c[i];
        assert(c.contains(x));
        if a.contains(x) {
            assert(pool.has(a[a.index_of(x)]));
        } else {
            assert(pool.has(b[b.index_of(x)]));
        }
    }
}

} // verus!
