//! Fixed-size allocator for physical cache blocks.
use std::collections::VecDeque;
use vstd::prelude::*;

verus! {

/// Opaque handle to a physical block: an index into the pool.
#[derive(Debug, Clone, Copy, Hash, Eq, PartialEq, Structural)]
pub struct BlockID(pub u32);

/// Returned when a block is needed and no free block remains.
#[derive(Debug)]
pub struct PoolFull;

/// Capacity and block-size settings used to construct a scheduler.
pub struct BlockPoolConfig {
    /// Total number of physical blocks in the pool.
    pub num_blocks: u32,
    /// Number of tokens each block can hold. Smaller values reduce wasted space at sequence
    /// boundaries; larger values reduce per-block bookkeeping overhead.
    pub block_size: usize,
}

impl BlockPoolConfig {
    pub fn new(num_blocks: u32, block_size: usize) -> (config: Self)
        ensures
            config.num_blocks == num_blocks,
            config.block_size == block_size,
    {
        BlockPoolConfig { num_blocks, block_size }
    }
}

/// The state of a pool: the free list, front to back, the reference count of every block, and
/// how many allocations have succeeded.
#[verifier::ext_equal]
pub struct PoolView {
    pub free: Seq<BlockID>,
    pub refs: Seq<u32>,
    pub total_allocs: nat,
}

impl PoolView {
    /// `b` names a block of this pool.
    pub open spec fn has(self, b: BlockID) -> bool {
        b.0 < self.refs.len()
    }

    /// Every block of `blocks` is one of this pool.
    pub open spec fn has_all(self, blocks: Seq<BlockID>) -> bool {
        forall|i: int| 0 <= i < blocks.len() ==> self.has(#[trigger] blocks[i])
    }

    /// The number of references to `b`.
    pub open spec fn count(self, b: BlockID) -> u32 {
        self.refs[b.0 as int]
    }

    /// Every block has an ID, and the free list names blocks of this pool only.
    pub open spec fn valid(self) -> bool {
        &&& self.refs.len() <= u32::MAX
        &&& self.has_all(self.free)
    }

    /// The free list holds exactly the blocks without a reference, each once.
    pub open spec fn wf(self) -> bool {
        &&& self.valid()
        &&& self.free.no_duplicates()
        &&& forall|b: BlockID| #[trigger] self.has(b) ==> (self.count(b) == 0 <==> self.free.contains(b))
    }

    /// A pool of `num_blocks` free blocks.
    pub open spec fn fresh(num_blocks: nat) -> PoolView {
        PoolView {
            free: Seq::new(num_blocks, |i: int| BlockID(i as u32)),
            refs: Seq::new(num_blocks, |i: int| 0u32),
            total_allocs: 0,
        }
    }

    /// The pool after the block at the back of the free list has been handed out.
    pub open spec fn allocated(self) -> PoolView {
        PoolView {
            free: self.free.drop_last(),
            refs: self.refs.update(self.free.last().0 as int, 1u32),
            total_allocs: self.total_allocs + 1,
        }
    }

    /// The next `n` blocks that the pool hands out, in that order.
    pub open spec fn upcoming(self, n: nat) -> Seq<BlockID> {
        Seq::new(n, |i: int| self.free[self.free.len() - 1 - i])
    }

    /// The pool after `n` blocks have been handed out.
    pub open spec fn allocated_many(self, n: nat) -> PoolView {
        PoolView {
            free: self.free.take(self.free.len() - n),
            refs: Seq::new(
                self.refs.len(),
                |i: int|
                    if self.upcoming(n).contains(BlockID(i as u32)) {
                        1u32
                    } else {
                        self.refs[i]
                    },
            ),
            total_allocs: self.total_allocs + n,
        }
    }

    /// The pool with one more reference to `b`.
    pub open spec fn incref(self, b: BlockID) -> PoolView {
        PoolView { refs: self.refs.update(b.0 as int, (self.count(b) + 1) as u32), ..self }
    }

    /// The pool with one more reference for each occurrence of a block in `blocks`.
    pub open spec fn incref_all(self, blocks: Seq<BlockID>) -> PoolView {
        PoolView {
            refs: Seq::new(
                self.refs.len(),
                |i: int|
                    (self.refs[i] + crate::lists::occurrences(blocks, BlockID(i as u32))) as u32,
            ),
            ..self
        }
    }

    /// There is room for one more reference for each occurrence of a block in `blocks`.
    pub open spec fn can_incref_all(self, blocks: Seq<BlockID>) -> bool {
        forall|b: BlockID| #[trigger]
            self.has(b) ==> self.count(b) + crate::lists::occurrences(blocks, b) <= u32::MAX
    }

    /// The pool with one reference to `b` fewer. The last one puts `b` at the front of the free
    /// list.
    pub open spec fn decref(self, b: BlockID) -> PoolView {
        PoolView {
            free: if self.count(b) == 1 {
                seq![b] + self.free
            } else {
                self.free
            },
            refs: self.refs.update(b.0 as int, (self.count(b) - 1) as u32),
            ..self
        }
    }

    /// The pool with one reference fewer for each block of `blocks`, dropped first to last.
    pub open spec fn decref_all(self, blocks: Seq<BlockID>) -> PoolView
        decreases blocks.len(),
    {
        if blocks.len() == 0 {
            self
        } else {
            self.decref_all(blocks.drop_last()).decref(blocks.last())
        }
    }

    /// The blocks of `blocks` to which there is no reference.
    pub open spec fn unreferenced(self, blocks: Seq<BlockID>) -> Seq<BlockID> {
        blocks.filter(|b: BlockID| self.count(b) == 0)
    }

    /// The blocks of `blocks` that become free when one reference is dropped for each of them.
    pub open spec fn freed(self, blocks: Seq<BlockID>) -> Seq<BlockID> {
        self.decref_all(blocks).unreferenced(blocks)
    }

    /// Every occurrence of a block in `blocks` is backed by a reference.
    pub open spec fn can_decref_all(self, blocks: Seq<BlockID>) -> bool {
        forall|b: BlockID| #[trigger]
            self.has(b) ==> crate::lists::occurrences(blocks, b) <= self.count(b)
    }
}

impl PoolView {
    /// Which blocks become free: those that lose all their references.
    pub proof fn lemma_freed(self, blocks: Seq<BlockID>)
        ensures
            forall|b: BlockID| #[trigger]
                self.freed(blocks).contains(b) <==> blocks.contains(b) && self.decref_all(
                    blocks,
                ).count(b) == 0,
    {
        crate::lists::lemma_filter(
            blocks,
            |b: BlockID| self.decref_all(blocks).count(b) == 0,
        );
    }

    pub proof fn lemma_incref(self, b: BlockID)
        requires
            self.has(b),
            self.count(b) < u32::MAX,
        ensures
            self.valid() ==> self.incref(b).valid(),
            self.wf() && self.count(b) > 0 ==> self.incref(b).wf(),
    {
        let p = self.incref(b);
        if self.valid() {
            assert forall|i: int| 0 <= i < p.free.len() implies p.has(#[trigger] p.free[i]) by {
                assert(self.has(self.free[i]));
            }
        }
        if self.wf() && self.count(b) > 0 {
            assert forall|c: BlockID| #[trigger] p.has(c) implies (p.count(c) == 0
                <==> p.free.contains(c)) by {
                assert(self.has(c));
            }
        }
    }

    /// Handing out one block more.
    pub proof fn lemma_allocated_many_step(self, n: nat)
        requires
            self.valid(),
            n < self.free.len(),
        ensures
            self.allocated_many(n).valid(),
            self.allocated_many(n).free.len() == self.free.len() - n,
            self.allocated_many(n).allocated() == self.allocated_many(n + 1),
            self.upcoming(n + 1) == self.upcoming(n).push(self.allocated_many(n).free.last()),
    {
        let before = self.allocated_many(n);
        let after = self.allocated_many(n + 1);
        let b = before.free.last();
        assert(b == self.free[self.free.len() - 1 - n]);
        assert(self.upcoming(n + 1) =~= self.upcoming(n).push(b));
        assert forall|i: int| 0 <= i < before.free.len() implies before.has(
            #[trigger] before.free[i],
        ) by {
            assert(self.has(self.free[i]));
        }
        assert(self.has(self.free[self.free.len() - 1 - n]));
        assert(before.free.drop_last() =~= after.free);
        assert forall|i: int| 0 <= i < self.refs.len() implies before.allocated().refs[i]
            == after.refs[i] by {
            let c = BlockID(i as u32);
            if self.upcoming(n).contains(c) {
                let j = self.upcoming(n).index_of(c);
                assert(self.upcoming(n + 1)[j] == c);
            }
            if c == b {
                assert(self.upcoming(n + 1)[n as int] == c);
            }
            if self.upcoming(n + 1).contains(c) && c != b {
                let j = self.upcoming(n + 1).index_of(c);
                assert(self.upcoming(n)[j] == c);
            }
        }
        assert(before.allocated() =~= after);
    }

    /// What handing out `n` blocks keeps.
    pub proof fn lemma_allocated_many(self, n: nat)
        requires
            self.valid(),
            n <= self.free.len(),
        ensures
            self.allocated_many(n).valid(),
            self.wf() ==> self.allocated_many(n).wf(),
            self.has_all(self.upcoming(n)),
        decreases n,
    {
        if n == 0 {
            self.lemma_allocated_many_zero();
        } else {
            let m = (n - 1) as nat;
            self.lemma_allocated_many(m);
            self.lemma_allocated_many_step(m);
            self.allocated_many(m).lemma_allocated();
            assert forall|i: int| 0 <= i < n implies self.has(#[trigger] self.upcoming(n)[i]) by {
                assert(self.has(self.free[self.free.len() - 1 - i]));
            }
        }
    }

    /// Handing out no block.
    pub proof fn lemma_allocated_many_zero(self)
        ensures
            self.allocated_many(0) == self,
            self.upcoming(0) == Seq::<BlockID>::empty(),
    {
        assert(self.upcoming(0) =~= Seq::<BlockID>::empty());
        assert(self.free.take(self.free.len() as int) =~= self.free);
        assert(self.allocated_many(0) =~= self);
    }

    /// Adding references for no block.
    pub proof fn lemma_incref_all_empty(self)
        ensures
            self.incref_all(Seq::empty()) == self,
    {
        assert(self.incref_all(Seq::empty()) =~= self);
    }

    /// Adding the references for `blocks` one by one, at step `i`.
    pub proof fn lemma_incref_all_step(self, blocks: Seq<BlockID>, i: int)
        requires
            0 <= i < blocks.len(),
            self.valid(),
            self.has(blocks[i]),
            self.can_incref_all(blocks),
        ensures
            self.incref_all(blocks.take(i)).has(blocks[i]),
            self.incref_all(blocks.take(i)).count(blocks[i]) < u32::MAX,
            self.incref_all(blocks.take(i)).incref(blocks[i]) == self.incref_all(
                blocks.take(i + 1),
            ),
    {
        let before = self.incref_all(blocks.take(i));
        let b = blocks[i];
        assert(blocks.take(i + 1) =~= blocks.take(i).push(b));
        assert forall|c: BlockID| #[trigger] self.has(c) implies {
            &&& crate::lists::occurrences(blocks.take(i + 1), c) <= crate::lists::occurrences(
                blocks,
                c,
            )
            &&& crate::lists::occurrences(blocks.take(i + 1), c) == crate::lists::occurrences(
                blocks.take(i),
                c,
            ) + if b == c {
                1nat
            } else {
                0nat
            }
        } by {
            crate::lists::lemma_occurrences_push(blocks.take(i), b, c);
            assert(blocks =~= blocks.take(i + 1) + blocks.skip(i + 1));
            crate::lists::lemma_occurrences_add(blocks.take(i + 1), blocks.skip(i + 1), c);
        }
        assert(BlockID(b.0 as int as u32) == b);
        assert forall|k: int| 0 <= k < self.refs.len() implies before.incref(b).refs[k]
            == self.incref_all(blocks.take(i + 1)).refs[k] by {
            assert(self.has(BlockID(k as u32)));
        }
        assert(before.incref(b) =~= self.incref_all(blocks.take(i + 1)));
    }

    /// Adding references for blocks that are allocated keeps the free list exact.
    pub proof fn lemma_incref_all(self, blocks: Seq<BlockID>)
        requires
            self.wf(),
            self.can_incref_all(blocks),
            forall|b: BlockID| #[trigger] blocks.contains(b) ==> self.has(b) && self.count(b) > 0,
        ensures
            self.incref_all(blocks).wf(),
            forall|b: BlockID| #[trigger]
                self.has(b) ==> self.incref_all(blocks).count(b) == self.count(b)
                    + crate::lists::occurrences(blocks, b),
    {
        let post = self.incref_all(blocks);
        assert forall|b: BlockID| #[trigger] self.has(b) implies post.count(b) == self.count(b)
            + crate::lists::occurrences(blocks, b) by {
            assert(BlockID(b.0 as int as u32) == b);
        }
        assert forall|i: int| 0 <= i < post.free.len() implies post.has(#[trigger] post.free[i]) by {
            assert(self.has(self.free[i]));
        }
        assert forall|b: BlockID| #[trigger] post.has(b) implies (post.count(b) == 0
            <==> post.free.contains(b)) by {
            assert(self.has(b));
            crate::lists::lemma_occurrences_positive(blocks, b);
        }
    }

    /// Dropping the references of `blocks` one by one.
    pub proof fn lemma_decref_all(self, blocks: Seq<BlockID>)
        requires
            self.valid(),
            self.has_all(blocks),
            self.can_decref_all(blocks),
        ensures
            self.decref_all(blocks).valid(),
            self.wf() ==> self.decref_all(blocks).wf(),
            self.decref_all(blocks).refs.len() == self.refs.len(),
            self.decref_all(blocks).total_allocs == self.total_allocs,
            forall|b: BlockID| #[trigger]
                self.has(b) ==> self.decref_all(blocks).count(b) == self.count(b)
                    - crate::lists::occurrences(blocks, b),
        decreases blocks.len(),
    {
        if blocks.len() > 0 {
            let rest = blocks.drop_last();
            let b = blocks.last();
            assert(rest.push(b) =~= blocks);
            assert forall|i: int| 0 <= i < rest.len() implies self.has(#[trigger] rest[i]) by {
                assert(self.has(blocks[i]));
            }
            assert forall|c: BlockID| #[trigger] self.has(c) implies crate::lists::occurrences(
                rest,
                c,
            ) <= self.count(c) && crate::lists::occurrences(blocks, c)
                == crate::lists::occurrences(rest, c) + if b == c {
                1nat
            } else {
                0nat
            } by {
                crate::lists::lemma_occurrences_push(rest, b, c);
            }
            self.lemma_decref_all(rest);
            let mid = self.decref_all(rest);
            assert(self.has(blocks[blocks.len() - 1]));
            assert(crate::lists::occurrences(blocks, b) <= self.count(b));
            mid.lemma_decref(b);
        }
    }

    /// Dropping the references of the first `i + 1` blocks of `blocks` after the first `i`.
    pub proof fn lemma_decref_all_step(self, blocks: Seq<BlockID>, i: int)
        requires
            0 <= i < blocks.len(),
            self.valid(),
            self.has_all(blocks),
            self.can_decref_all(blocks),
        ensures
            self.decref_all(blocks.take(i)).has(blocks[i]),
            self.decref_all(blocks.take(i)).count(blocks[i]) > 0,
            self.decref_all(blocks.take(i)).decref(blocks[i]) == self.decref_all(
                blocks.take(i + 1),
            ),
    {
        let some = blocks.take(i);
        let more = blocks.take(i + 1);
        let b = blocks[i];
        assert(more =~= some.push(b));
        assert(more.drop_last() =~= some);
        assert forall|k: int| 0 <= k < some.len() implies self.has(#[trigger] some[k]) by {
            assert(self.has(blocks[k]));
        }
        assert forall|c: BlockID| #[trigger] self.has(c) implies {
            &&& crate::lists::occurrences(some, c) <= self.count(c)
            &&& c == b ==> crate::lists::occurrences(some, c) < self.count(c)
        } by {
            crate::lists::lemma_occurrences_push(some, b, c);
            assert(blocks =~= more + blocks.skip(i + 1));
            crate::lists::lemma_occurrences_add(more, blocks.skip(i + 1), c);
        }
        self.lemma_decref_all(some);
        assert(self.has(b));
    }

    pub proof fn lemma_decref(self, b: BlockID)
        requires
            self.has(b),
            self.count(b) > 0,
        ensures
            self.valid() ==> self.decref(b).valid(),
            self.wf() ==> self.decref(b).wf(),
    {
        let p = self.decref(b);
        if self.valid() {
            assert forall|i: int| 0 <= i < p.free.len() implies p.has(#[trigger] p.free[i]) by {
                if self.count(b) == 1 {
                    if i > 0 {
                        assert(self.has(self.free[i - 1]));
                    }
                } else {
                    assert(self.has(self.free[i]));
                }
            }
        }
        if self.wf() {
            if self.count(b) == 1 {
                assert forall|i: int, j: int|
                    0 <= i < j < p.free.len() implies p.free[i] != p.free[j] by {
                    if i == 0 {
                        assert(self.free.contains(self.free[j - 1]));
                    } else {
                        assert(self.free[i - 1] != self.free[j - 1]);
                    }
                }
            }
            assert forall|c: BlockID| #[trigger] p.has(c) implies (p.count(c) == 0
                <==> p.free.contains(c)) by {
                assert(self.has(c));
                if self.count(b) == 1 {
                    if c == b {
                        assert(p.free[0] == c);
                    } else if self.free.contains(c) {
                        let i = self.free.index_of(c);
                        assert(p.free[i + 1] == c);
                    } else if p.free.contains(c) {
                        let i = p.free.index_of(c);
                        assert(self.free[i - 1] == c);
                    }
                }
            }
        }
    }

    pub proof fn lemma_allocated(self)
        requires
            self.valid(),
            self.free.len() > 0,
        ensures
            self.has(self.free.last()),
            self.allocated().valid(),
            self.wf() ==> self.allocated().wf(),
    {
        let p = self.allocated();
        let b = self.free.last();
        assert(self.has(self.free[self.free.len() - 1]));
        assert forall|i: int| 0 <= i < p.free.len() implies p.has(#[trigger] p.free[i]) by {
            assert(self.has(self.free[i]));
        }
        if self.wf() {
            assert forall|c: BlockID| #[trigger] p.has(c) implies (p.count(c) == 0
                <==> p.free.contains(c)) by {
                assert(self.has(c));
                if self.free.contains(c) {
                    let i = self.free.index_of(c);
                    if c != b {
                        assert(p.free[i] == c);
                    }
                }
                if p.free.contains(c) {
                    let i = p.free.index_of(c);
                    assert(self.free[i] == c);
                    assert(self.free[self.free.len() - 1] == b);
                }
            }
        }
    }
}

/// Fixed-size allocator for physical cache blocks.
///
/// Blocks are identified by [`BlockID`] (a pool index). Shared ownership is tracked via
/// reference counts: `incref`/`decref` instead of direct `free`. A block returns to the
/// free list only when its reference count reaches zero.
pub struct BlockPool {
    free_list: VecDeque<BlockID>,
    ref_count: Vec<u32>,
    /// Monotonically increasing count of successful [`allocate`](BlockPool::allocate) calls.
    pub total_allocs: usize,
}

impl View for BlockPool {
    type V = PoolView;

    closed spec fn view(&self) -> PoolView {
        PoolView {
            free: self.free_list@,
            refs: self.ref_count@,
            total_allocs: self.total_allocs as nat,
        }
    }
}

impl BlockPool {
    /// A pool of `num_blocks` blocks, all of them free.
    pub fn new(num_blocks: u32) -> (pool: Self)
        ensures
            pool@ == PoolView::fresh(num_blocks as nat),
            pool@.wf(),
    {
        let mut ref_count: Vec<u32> = Vec::new();
        let mut free_list: VecDeque<BlockID> = VecDeque::new();
        for i in 0..num_blocks
            invariant
                ref_count@.len() == i,
                free_list@.len() == i,
                forall|j: int| 0 <= j < i ==> ref_count@[j] == 0,
                forall|j: int| 0 <= j < i ==> free_list@[j] == BlockID(j as u32),
        {
            ref_count.push(0);
            free_list.push_back(BlockID(i));
        }
        let pool = BlockPool { free_list, ref_count, total_allocs: 0 };
        proof {
            assert(pool@ =~= PoolView::fresh(num_blocks as nat));
            assert forall|b: BlockID| #[trigger] pool@.has(b) implies pool@.free.contains(b) by {
                assert(pool@.free[b.0 as int] == b);
            }
        }
        pool
    }

    /// Takes the block at the back of the free list, sets its reference count to 1, and returns
    /// its ID. Returns `None` if the pool is exhausted.
    pub fn allocate(&mut self) -> (block: Option<BlockID>)
        requires
            old(self)@.valid(),
            old(self)@.free.len() > 0 ==> old(self)@.total_allocs < usize::MAX,
        ensures
            block is None <==> old(self)@.free.len() == 0,
            block is None ==> final(self)@ == old(self)@,
            block matches Some(b) ==> {
                &&& b == old(self)@.free.last()
                &&& final(self)@ == old(self)@.allocated()
            },
            final(self)@.valid(),
            old(self)@.wf() ==> final(self)@.wf(),
    {
        match self.free_list.pop_back() {
            Some(block) => {
                proof {
                    old(self)@.lemma_allocated();
                }
                self.ref_count.set(block.0 as usize, 1);
                self.total_allocs += 1;
                assert(self@ =~= old(self)@.allocated());
                Some(block)
            },
            None => None,
        }
    }

    /// Gives back a block whose only reference is dropped.
    fn free(&mut self, block_id: BlockID)
        requires
            old(self)@.has(block_id),
            old(self)@.count(block_id) == 1,
        ensures
            final(self)@ == old(self)@.decref(block_id),
    {
        self.ref_count.set(block_id.0 as usize, 0);
        self.free_list.push_front(block_id);
        assert(self@ =~= old(self)@.decref(block_id));
    }

    /// Increments the reference count. Call when a block is shared (prefix cache hit, fork).
    pub fn incref(&mut self, block_id: BlockID)
        requires
            old(self)@.has(block_id),
            old(self)@.count(block_id) < u32::MAX,
        ensures
            final(self)@ == old(self)@.incref(block_id),
            old(self)@.valid() ==> final(self)@.valid(),
            old(self)@.wf() && old(self)@.count(block_id) > 0 ==> final(self)@.wf(),
    {
        let count: u32 = self.ref_count[block_id.0 as usize];
        self.ref_count.set(block_id.0 as usize, count + 1);
        proof {
            assert(self@ =~= old(self)@.incref(block_id));
            old(self)@.lemma_incref(block_id);
        }
    }

    /// Decrements the reference count. Frees the block when it reaches zero.
    pub fn decref(&mut self, block_id: BlockID)
        requires
            old(self)@.has(block_id),
            old(self)@.count(block_id) > 0,
        ensures
            final(self)@ == old(self)@.decref(block_id),
            old(self)@.valid() ==> final(self)@.valid(),
            old(self)@.wf() ==> final(self)@.wf(),
    {
        let left: u32 = self.ref_count[block_id.0 as usize].checked_sub(1).expect(
            "decref on unallocated block",
        );
        if left == 0 {
            self.free(block_id);
        } else {
            self.ref_count.set(block_id.0 as usize, left);
        }
        proof {
            assert(self@ =~= old(self)@.decref(block_id));
            old(self)@.lemma_decref(block_id);
        }
    }

    /// The number of references to a block.
    pub fn get_ref_count(&self, id: BlockID) -> (count: u32)
        requires
            self@.has(id),
        ensures
            count == self@.count(id),
    {
        self.ref_count[id.0 as usize]
    }

    /// Whether no reference to a block is left.
    pub fn is_free(&self, id: BlockID) -> (free: bool)
        requires
            self@.has(id),
        ensures
            free <==> self@.count(id) == 0,
    {
        self.ref_count[id.0 as usize] == 0
    }

    /// The counter of successful allocations, as the field of that name holds it.
    pub fn total_allocs(&self) -> (n: usize)
        ensures
            n == self@.total_allocs,
    {
        self.total_allocs
    }

    /// Number of blocks currently available for allocation. O(1).
    pub fn available(&self) -> (n: usize)
        ensures
            n == self@.free.len(),
    {
        self.free_list.len()
    }
}

} // verus!
