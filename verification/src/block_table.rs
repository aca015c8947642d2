//! Per-request page table mapping logical token positions to physical blocks.
use crate::block_pool::{BlockID, BlockPool, PoolFull, PoolView};
use vstd::prelude::*;

verus! {

/// The state of a block table: slot `i` of `blocks` covers the tokens from `i * block_size` up to
/// but not including `(i + 1) * block_size`.
#[verifier::ext_equal]
pub struct TableView {
    pub blocks: Seq<BlockID>,
    pub block_size: nat,
    pub num_tokens: nat,
}

impl TableView {
    /// A table with no token in it.
    pub open spec fn empty(block_size: nat) -> TableView {
        TableView { blocks: Seq::empty(), block_size, num_tokens: 0 }
    }

    /// There are exactly as many blocks as the tokens take up.
    pub open spec fn wf(self) -> bool {
        if self.block_size == 0 {
            self.num_tokens == 0
        } else {
            self.blocks.len() == crate::lists::blocks_for(self.num_tokens, self.block_size)
        }
    }

    /// The next token starts a block.
    pub open spec fn at_boundary(self) -> bool {
        self.num_tokens % self.block_size == 0
    }

    /// The block that holds token `i`, and the token's place in it.
    pub open spec fn place(self, i: nat) -> (BlockID, nat) {
        (self.blocks[i as int / self.block_size as int], i % self.block_size)
    }

    /// There is a last block, and every place in it is taken.
    pub open spec fn last_is_full(self) -> bool {
        self.blocks.len() > 0 && self.num_tokens % self.block_size == 0
    }

    /// Appending a token takes a block from the pool: the token starts a block or, with
    /// copy-on-write, goes into a block that is shared.
    pub open spec fn needs_block(self, pool: PoolView, cow: bool) -> bool {
        self.at_boundary() || (cow && pool.count(self.blocks.last()) > 1)
    }

    /// A token can be appended: no block is needed, or one is free.
    pub open spec fn can_append(self, pool: PoolView, cow: bool) -> bool {
        self.needs_block(pool, cow) ==> pool.free.len() > 0
    }

    /// Appending a token stays within machine limits.
    pub open spec fn append_in_limits(self, pool: PoolView, cow: bool) -> bool {
        self.can_append(pool, cow) ==> {
            &&& self.num_tokens < usize::MAX
            &&& self.needs_block(pool, cow) ==> pool.total_allocs < usize::MAX
        }
    }

    /// The table and the pool after a token has been appended.
    pub open spec fn appended(self, pool: PoolView, cow: bool) -> (TableView, PoolView) {
        if self.at_boundary() {
            (
                TableView {
                    blocks: self.blocks.push(pool.free.last()),
                    num_tokens: self.num_tokens + 1,
                    ..self
                },
                pool.allocated(),
            )
        } else if cow {
            let (table, pool) = self.unshared(self.blocks.len() - 1, pool);
            (TableView { num_tokens: self.num_tokens + 1, ..table }, pool)
        } else {
            (TableView { num_tokens: self.num_tokens + 1, ..self }, pool)
        }
    }

    /// The table and the pool after the block at `slot` has been made private: a shared block is
    /// replaced by a fresh one and loses a reference.
    pub open spec fn unshared(self, slot: int, pool: PoolView) -> (TableView, PoolView) {
        if pool.count(self.blocks[slot]) > 1 {
            (
                TableView { blocks: self.blocks.update(slot, pool.free.last()), ..self },
                pool.allocated().decref(self.blocks[slot]),
            )
        } else {
            (self, pool)
        }
    }

    /// The number of blocks that `n` further tokens take from the pool.
    pub open spec fn missing(self, n: nat) -> nat {
        if n == 0 {
            0
        } else {
            (crate::lists::blocks_for(self.num_tokens + n, self.block_size)
                - self.blocks.len()) as nat
        }
    }

    /// The table after `n` tokens have been appended, without copy-on-write.
    pub open spec fn grown(self, pool: PoolView, n: nat) -> TableView {
        TableView {
            blocks: self.blocks + pool.upcoming(self.missing(n)),
            num_tokens: self.num_tokens + n,
            ..self
        }
    }

    /// The blocks that `n` appended tokens go into, first to last.
    pub open spec fn written(self, pool: PoolView, n: nat) -> Seq<BlockID> {
        if n == 0 {
            Seq::empty()
        } else {
            self.grown(pool, n).blocks.skip((self.num_tokens / self.block_size) as int)
        }
    }

    /// The table after whole blocks of tokens have been put behind it.
    pub open spec fn with_full_blocks(self, blocks: Seq<BlockID>) -> TableView {
        TableView {
            blocks: self.blocks + blocks,
            num_tokens: self.num_tokens + blocks.len() * self.block_size,
            ..self
        }
    }
}

impl TableView {
    /// What one more appended token does, step by step.
    pub proof fn lemma_grown_step(self, pool: PoolView, n: nat, order: Seq<BlockID>)
        requires
            self.wf(),
            self.block_size > 0,
            pool.valid(),
            self.missing(n + 1) <= pool.free.len(),
        ensures
            self.missing(n) <= self.missing(n + 1),
            self.grown(pool, n).wf(),
            self.grown(pool, n + 1).blocks.len() > 0,
            ({
                let here = pool.allocated_many(self.missing(n));
                &&& here.valid()
                &&& here.total_allocs == pool.total_allocs + self.missing(n)
                &&& self.grown(pool, n).needs_block(here, false) ==> self.missing(n + 1)
                    == self.missing(n) + 1
                &&& self.grown(pool, n).can_append(here, false)
                &&& self.grown(pool, n).appended(here, false) == (
                    self.grown(pool, n + 1),
                    pool.allocated_many(self.missing(n + 1)),
                )
            }),
            crate::lists::touch(
                crate::lists::touch_all(order, self.written(pool, n)),
                self.grown(pool, n + 1).blocks.last(),
            ) == crate::lists::touch_all(order, self.written(pool, n + 1)),
    {
        let bs = self.block_size;
        let start = self.num_tokens;
        let m = self.missing(n);
        let table = self.grown(pool, n);
        let next = self.grown(pool, n + 1);
        self.lemma_missing(n);
        self.lemma_missing(n + 1);
        crate::lists::lemma_blocks_for_step(start + n, bs);
        crate::lists::lemma_blocks_for_step(start, bs);
        let slot = (start / bs) as int;
        if m < self.missing(n + 1) {
            pool.lemma_allocated_many_step(m);
            let b = pool.allocated_many(m).free.last();
            assert(next.blocks =~= table.blocks.push(b));
            assert(table.appended(pool.allocated_many(m), false).0 =~= next);
            assert(self.written(pool, n + 1) =~= self.written(pool, n).push(b));
            crate::lists::lemma_touch_all_push(order, self.written(pool, n), b);
        } else {
            if m == 0 {
                pool.lemma_allocated_many_zero();
            } else {
                pool.lemma_allocated_many_step((m - 1) as nat);
                let before = pool.allocated_many((m - 1) as nat);
                before.lemma_allocated();
            }
            assert(table.appended(pool.allocated_many(m), false).0 =~= next);
            let b = next.blocks.last();
            if n == 0 {
                assert(self.written(pool, 1) =~= Seq::<BlockID>::empty().push(b));
                crate::lists::lemma_touch_all_push(order, Seq::<BlockID>::empty(), b);
            } else {
                let w = self.written(pool, n);
                assert(self.written(pool, n + 1) =~= w);
                assert(slot < table.blocks.len()) by {
                    crate::lists::lemma_blocks_for_step((start + n - 1) as nat, bs);
                    vstd::arithmetic::div_mod::lemma_div_is_ordered(
                        start as int,
                        start + n - 1,
                        bs as int,
                    );
                }
                assert(w.last() == b);
                crate::lists::lemma_touch_twice(
                    crate::lists::touch_all(order, w.drop_last()),
                    b,
                );
            }
        }
    }

    /// What appending `n` tokens keeps.
    pub proof fn lemma_grown(self, pool: PoolView, n: nat)
        requires
            self.wf(),
            n > 0 ==> self.block_size > 0,
            pool.valid(),
            pool.has_all(self.blocks),
            self.missing(n) <= pool.free.len(),
        ensures
            self.grown(pool, n).wf(),
            pool.has_all(self.grown(pool, n).blocks),
            forall|b: BlockID| #[trigger]
                self.written(pool, n).contains(b) ==> self.grown(pool, n).blocks.contains(b),
    {
        let table = self.grown(pool, n);
        pool.lemma_allocated_many(self.missing(n));
        if self.block_size > 0 {
            self.lemma_missing(n);
        } else {
            pool.lemma_allocated_many_zero();
        }
        assert forall|i: int| 0 <= i < table.blocks.len() implies pool.has(
            #[trigger] table.blocks[i],
        ) by {
            if i < self.blocks.len() {
                assert(pool.has(self.blocks[i]));
            } else {
                assert(pool.has(pool.upcoming(self.missing(n))[i - self.blocks.len()]));
            }
        }
        if n > 0 {
            let slot = (self.num_tokens / self.block_size) as int;
            crate::lists::lemma_blocks_for_step(self.num_tokens, self.block_size);
            assert forall|b: BlockID| #[trigger] self.written(pool, n).contains(
                b,
            ) implies table.blocks.contains(b) by {
                let i = self.written(pool, n).index_of(b);
                assert(table.blocks[slot + i] == b);
            }
        }
    }

    /// What putting whole blocks behind a table keeps.
    pub proof fn lemma_with_full_blocks(self, blocks: Seq<BlockID>)
        requires
            self.wf(),
        ensures
            self.with_full_blocks(blocks).wf(),
        decreases blocks.len(),
    {
        let bs = self.block_size;
        if blocks.len() == 0 {
            assert(0 * bs == 0);
            assert(self.with_full_blocks(blocks) =~= self);
        } else {
            let rest = blocks.drop_last();
            self.lemma_with_full_blocks(rest);
            assert(blocks.len() * bs == rest.len() * bs + bs) by (nonlinear_arith)
                requires
                    blocks.len() == rest.len() + 1,
            ;
            if bs > 0 {
                crate::lists::lemma_blocks_for_full(self.num_tokens + rest.len() * bs, bs);
            } else {
                assert(rest.len() * bs == 0) by (nonlinear_arith)
                    requires
                        bs == 0,
                ;
            }
        }
    }

    /// What appending a token keeps.
    pub proof fn lemma_appended(self, pool: PoolView, cow: bool)
        requires
            self.wf(),
            self.block_size > 0,
            pool.valid(),
            pool.has_all(self.blocks),
            self.can_append(pool, cow),
        ensures
            ({
                let (table, after) = self.appended(pool, cow);
                &&& table.wf()
                &&& table.block_size == self.block_size
                &&& table.num_tokens == self.num_tokens + 1
                &&& table.blocks.len() > 0
                &&& after.valid()
                &&& pool.wf() ==> after.wf()
                &&& after.refs.len() == pool.refs.len()
                &&& after.has_all(table.blocks)
            }),
    {
        let (table, after) = self.appended(pool, cow);
        crate::lists::lemma_blocks_for_step(self.num_tokens, self.block_size);
        if self.needs_block(pool, cow) {
            pool.lemma_allocated();
        }
        if !self.at_boundary() {
            let last = self.blocks[self.blocks.len() - 1];
            assert(pool.has(last));
            if self.needs_block(pool, cow) {
                pool.allocated().lemma_decref(last);
            }
        }
        assert forall|i: int| 0 <= i < table.blocks.len() implies after.has(
            #[trigger] table.blocks[i],
        ) by {
            if i < self.blocks.len() {
                assert(pool.has(self.blocks[i]));
            }
        }
    }

    /// More tokens take no fewer blocks.
    pub proof fn lemma_missing_ordered(self, m: nat, n: nat)
        requires
            self.wf(),
            self.block_size > 0,
            m <= n,
        ensures
            self.missing(m) <= self.missing(n),
    {
        self.lemma_missing(m);
        self.lemma_missing(n);
        vstd::arithmetic::div_mod::lemma_div_is_ordered(
            self.num_tokens + m + self.block_size - 1,
            self.num_tokens + n + self.block_size - 1,
            self.block_size as int,
        );
    }

    /// How many blocks `n` further tokens take.
    pub proof fn lemma_missing(self, n: nat)
        requires
            self.wf(),
            self.block_size > 0,
        ensures
            self.blocks.len() + self.missing(n) == crate::lists::blocks_for(
                self.num_tokens + n,
                self.block_size,
            ),
        decreases n,
    {
        if n > 0 {
            self.lemma_missing((n - 1) as nat);
            crate::lists::lemma_blocks_for_step((self.num_tokens + n - 1) as nat, self.block_size);
        }
    }
}

/// Per-request page table.
pub struct BlockTable {
    blocks: Vec<BlockID>,
    block_size: usize,
    num_tokens: usize,
}

impl View for BlockTable {
    type V = TableView;

    closed spec fn view(&self) -> TableView {
        TableView {
            blocks: self.blocks@,
            block_size: self.block_size as nat,
            num_tokens: self.num_tokens as nat,
        }
    }
}

impl BlockTable {
    /// A table without tokens.
    pub fn new(block_size: usize) -> (table: BlockTable)
        ensures
            table@ == TableView::empty(block_size as nat),
            table@.wf(),
    {
        let table = BlockTable { blocks: Vec::new(), block_size, num_tokens: 0 };
        proof {
            assert(table@ =~= TableView::empty(block_size as nat));
            if block_size > 0 {
                crate::lists::lemma_blocks_for_step(0, block_size as nat);
            }
        }
        table
    }

    /// The block that holds token `token_index`, and the token's place in it.
    pub fn logical_to_physical(&self, token_index: usize) -> (place: (BlockID, usize))
        requires
            self@.block_size > 0,
            token_index as nat / self@.block_size < self@.blocks.len(),
        ensures
            place.0 == self@.blocks[token_index as int / self@.block_size as int],
            place.1 == token_index as nat % self@.block_size,
            (place.0, place.1 as nat) == self@.place(token_index as nat),
    {
        let block_idx: usize = token_index / self.block_size;
        let offset: usize = token_index % self.block_size;
        (self.blocks[block_idx], offset)
    }

    /// Makes room for one more token. Takes a block from the pool when the token starts one;
    /// fails, and changes nothing, if there is none.
    pub fn append_token(&mut self, pool: &mut BlockPool) -> (result: Result<(), PoolFull>)
        requires
            old(self)@.wf(),
            old(self)@.block_size > 0,
            old(pool)@.valid(),
            old(self)@.append_in_limits(old(pool)@, false),
        ensures
            result is Ok <==> old(self)@.can_append(old(pool)@, false),
            result is Ok ==> (final(self)@, final(pool)@) == old(self)@.appended(
                old(pool)@,
                false,
            ),
            result is Err ==> final(self)@ == old(self)@ && final(pool)@ == old(pool)@,
            final(self)@.wf(),
            final(pool)@.valid(),
            old(pool)@.wf() ==> final(pool)@.wf(),
    {
        proof {
            crate::lists::lemma_blocks_for_step(self@.num_tokens, self@.block_size);
        }
        let block_boundary: usize = self.num_tokens % self.block_size;
        match block_boundary {
            0 => {
                let new_block = pool.allocate();
                match new_block {
                    Some(block) => {
                        self.blocks.push(block);
                        self.num_tokens += 1;
                        Ok(())
                    },
                    _ => Err(PoolFull),
                }
            },
            _ => {
                self.num_tokens += 1;
                Ok(())
            },
        }
    }

    /// The block of the last slot.
    pub fn last_block(&self) -> (block: Option<BlockID>)
        ensures
            block == if self@.blocks.len() == 0 {
                None
            } else {
                Some(self@.blocks.last())
            },
    {
        if self.blocks.len() == 0 {
            None
        } else {
            Some(self.blocks[self.blocks.len() - 1])
        }
    }

    /// Whether there is a last block and every place in it is taken.
    pub fn is_last_block_full(&self) -> (full: bool)
        requires
            self@.blocks.len() > 0 ==> self@.block_size > 0,
        ensures
            full <==> self@.blocks.len() > 0 && self@.num_tokens % self@.block_size == 0,
            full <==> self@.last_is_full(),
    {
        !self.blocks.is_empty() && self.num_tokens % self.block_size == 0
    }

    /// The number of slots.
    pub fn len(&self) -> (n: usize)
        ensures
            n == self@.blocks.len(),
    {
        self.blocks.len()
    }

    /// The blocks, first slot to last.
    pub fn blocks(&self) -> (blocks: &[BlockID])
        ensures
            blocks@ == self@.blocks,
    {
        self.blocks.as_slice()
    }

    /// The number of tokens.
    pub fn num_tokens(&self) -> (n: usize)
        ensures
            n == self@.num_tokens,
    {
        self.num_tokens
    }

    /// Inserts a pre-existing shared block (from the prefix cache) without allocating from the
    /// pool. The caller is responsible for having already added the reference.
    pub fn push_full_block(&mut self, block_id: BlockID)
        requires
            old(self)@.num_tokens + old(self)@.block_size <= usize::MAX,
        ensures
            final(self)@ == old(self)@.with_full_blocks(seq![block_id]),
            old(self)@.wf() ==> final(self)@.wf(),
    {
        proof {
            if self@.block_size > 0 {
                crate::lists::lemma_blocks_for_full(self@.num_tokens, self@.block_size);
            }
        }
        self.blocks.push(block_id);
        self.num_tokens += self.block_size;
        assert(1 * old(self)@.block_size == old(self)@.block_size);
        assert(seq![block_id].len() == 1);
        assert(self@ =~= old(self)@.with_full_blocks(seq![block_id]));
    }

    /// Forgets all tokens and blocks. The caller is responsible for the references.
    pub fn clear(&mut self)
        ensures
            final(self)@ == TableView::empty(old(self)@.block_size),
            final(self)@.wf(),
    {
        self.num_tokens = 0;
        self.blocks.clear();
        proof {
            assert(self@ =~= TableView::empty(old(self)@.block_size));
            if self@.block_size > 0 {
                crate::lists::lemma_blocks_for_step(0, self@.block_size);
            }
        }
    }

    /// If the block at `slot` is shared, allocates a private copy, drops the reference to the old
    /// block, and updates the table entry. Does nothing if the block is already exclusive. Fails,
    /// and changes nothing, if a copy is needed and no block is free.
    pub fn ensure_unshared(&mut self, slot: usize, pool: &mut BlockPool) -> (result: Result<
        BlockID,
        PoolFull,
    >)
        requires
            slot < old(self)@.blocks.len(),
            old(pool)@.valid(),
            old(pool)@.has(old(self)@.blocks[slot as int]),
            old(pool)@.count(old(self)@.blocks[slot as int]) > 1 && old(pool)@.free.len() > 0
                ==> old(pool)@.total_allocs < usize::MAX,
        ensures
            result is Ok <==> (old(pool)@.count(old(self)@.blocks[slot as int]) > 1 ==> old(
                pool,
            )@.free.len() > 0),
            result matches Ok(block) ==> {
                &&& (final(self)@, final(pool)@) == old(self)@.unshared(slot as int, old(pool)@)
                &&& block == final(self)@.blocks[slot as int]
            },
            result is Err ==> final(self)@ == old(self)@ && final(pool)@ == old(pool)@,
            old(self)@.wf() ==> final(self)@.wf(),
            final(pool)@.valid(),
            old(pool)@.wf() ==> final(pool)@.wf(),
    {
        let block_id = self.blocks[slot];
        if pool.get_ref_count(block_id) > 1 {
            match pool.allocate() {
                Some(new_block) => {
                    pool.decref(block_id);
                    self.blocks.set(slot, new_block);
                    Ok(new_block)
                },
                None => Err(PoolFull),
            }
        } else {
            Ok(block_id)
        }
    }

    /// Like [`append_token`](BlockTable::append_token) but makes a private copy of a shared last
    /// block before writing into it.
    pub fn append_token_cow(&mut self, pool: &mut BlockPool) -> (result: Result<(), PoolFull>)
        requires
            old(self)@.wf(),
            old(self)@.block_size > 0,
            old(pool)@.valid(),
            !old(self)@.at_boundary() ==> old(pool)@.has(old(self)@.blocks.last()),
            old(self)@.append_in_limits(old(pool)@, true),
        ensures
            result is Ok <==> old(self)@.can_append(old(pool)@, true),
            result is Ok ==> (final(self)@, final(pool)@) == old(self)@.appended(old(pool)@, true),
            result is Err ==> final(self)@ == old(self)@ && final(pool)@ == old(pool)@,
            final(self)@.wf(),
            final(pool)@.valid(),
            old(pool)@.wf() ==> final(pool)@.wf(),
    {
        proof {
            crate::lists::lemma_blocks_for_step(self@.num_tokens, self@.block_size);
        }
        if self.num_tokens % self.block_size == 0 {
            // Crossing into a new block: always unshared from birth.
            match pool.allocate() {
                Some(new_block) => {
                    self.blocks.push(new_block);
                    self.num_tokens += 1;
                    Ok(())
                },
                None => Err(PoolFull),
            }
        } else {
            // Writing within the last block: unshare it first if needed.
            let last_slot: usize = self.blocks.len() - 1;
            match self.ensure_unshared(last_slot, pool) {
                Ok(_) => {
                    self.num_tokens += 1;
                    Ok(())
                },
                Err(full) => Err(full),
            }
        }
    }

    /// A second table over the same blocks, each with one more reference.
    pub fn fork(&mut self, pool: &mut BlockPool) -> (table: BlockTable)
        requires
            old(pool)@.valid(),
            old(pool)@.has_all(old(self)@.blocks),
            old(pool)@.can_incref_all(old(self)@.blocks),
        ensures
            table@ == old(self)@,
            final(self)@ == old(self)@,
            final(pool)@ == old(pool)@.incref_all(old(self)@.blocks),
            final(pool)@.valid(),
            old(pool)@.wf() && (forall|i: int|
                0 <= i < old(self)@.blocks.len() ==> old(pool)@.count(
                    #[trigger] old(self)@.blocks[i],
                ) > 0) ==> final(pool)@.wf(),
    {
        let blocks_forked = self.blocks.clone();
        assert(blocks_forked@ =~= self.blocks@);
        let n: usize = blocks_forked.len();
        assert(pool@ =~= old(pool)@.incref_all(blocks_forked@.take(0)));
        for i in 0..n
            invariant
                n == blocks_forked@.len(),
                blocks_forked@ == old(self)@.blocks,
                old(pool)@.has_all(blocks_forked@),
                old(pool)@.can_incref_all(blocks_forked@),
                pool@ == old(pool)@.incref_all(blocks_forked@.take(i as int)),
                old(pool)@.valid(),
                pool@.valid(),
        {
            proof {
                old(pool)@.lemma_incref_all_step(blocks_forked@, i as int);
            }
            pool.incref(blocks_forked[i]);
        }
        proof {
            let blocks = old(self)@.blocks;
            assert(blocks_forked@.take(n as int) =~= blocks_forked@);
            if old(pool)@.wf() && forall|i: int|
                0 <= i < blocks.len() ==> old(pool)@.count(#[trigger] blocks[i]) > 0 {
                assert forall|b: BlockID| #[trigger] blocks.contains(b) implies old(pool)@.has(b)
                    && old(pool)@.count(b) > 0 by {
                    let i = blocks.index_of(b);
                    assert(old(pool)@.has(blocks[i]));
                }
                old(pool)@.lemma_incref_all(blocks);
            }
        }
        BlockTable {
            blocks: blocks_forked,
            block_size: self.block_size,
            num_tokens: self.num_tokens,
        }
    }
}

} // verus!
