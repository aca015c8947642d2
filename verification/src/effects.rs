//! What the pool, a block table and the prefix cache do, part by part: what changes, how, and that
//! nothing else does.
use crate::block_pool::{BlockID, PoolView};
use crate::block_table::TableView;
use crate::prefix_cache::CacheView;
use crate::sequence::TokenId;
use vstd::prelude::*;

verus! {

// ---------------------------------------------------------------------------------------------
// The pool
// ---------------------------------------------------------------------------------------------

/// A new pool has every block on its free list, in order, and no references.
pub proof fn law_new_pool(num_blocks: nat, i: int)
    requires
        num_blocks <= u32::MAX,
        0 <= i < num_blocks,
    ensures
        ({
            let pool = PoolView::fresh(num_blocks);
            &&& pool.free.len() == num_blocks
            &&& pool.refs.len() == num_blocks
            &&& pool.free[i] == BlockID(i as u32)
            &&& pool.refs[i] == 0
            &&& pool.count(BlockID(i as u32)) == 0
            &&& pool.total_allocs == 0
        }),
{
}

/// Two pools have the same blocks, and the same references but for those of `b`.
pub open spec fn only_count_of(pool: PoolView, post: PoolView, b: BlockID) -> bool {
    &&& post.refs.len() == pool.refs.len()
    &&& forall|i: int| 0 <= i < pool.refs.len() && i != b.0 ==> #[trigger] post.refs[i] == pool.refs[i]
}

/// An allocation takes the block at the back of the free list, gives it one reference and counts.
/// The other blocks stay where they are.
pub proof fn law_allocation(pool: PoolView)
    requires
        pool.valid(),
        pool.free.len() > 0,
    ensures
        ({
            let post = pool.allocated();
            let b = pool.free[pool.free.len() - 1];
            &&& post.free.push(b) == pool.free
            &&& post.refs[b.0 as int] == 1
            &&& post.count(b) == 1
            &&& only_count_of(pool, post, b)
            &&& post.total_allocs == pool.total_allocs + 1
        }),
{
    assert(pool.has(pool.free[pool.free.len() - 1]));
    assert(pool.allocated().free.push(pool.free.last()) =~= pool.free);
}

/// A reference more changes the count of that block by one, and nothing else.
pub proof fn law_one_reference_more(pool: PoolView, b: BlockID)
    requires
        pool.has(b),
        pool.count(b) < u32::MAX,
    ensures
        ({
            let post = pool.incref(b);
            &&& post.refs[b.0 as int] == pool.refs[b.0 as int] + 1
            &&& post.count(b) == pool.count(b) + 1
            &&& only_count_of(pool, post, b)
            &&& post.free == pool.free
            &&& post.total_allocs == pool.total_allocs
        }),
{
}

/// A reference fewer changes the count of that block by one. With the last one the block goes to
/// the front of the free list, before the blocks that are there.
pub proof fn law_one_reference_fewer(pool: PoolView, b: BlockID)
    requires
        pool.has(b),
        pool.count(b) > 0,
    ensures
        ({
            let post = pool.decref(b);
            &&& post.refs[b.0 as int] == pool.refs[b.0 as int] - 1
            &&& post.count(b) == pool.count(b) - 1
            &&& only_count_of(pool, post, b)
            &&& pool.refs[b.0 as int] > 1 ==> post.free == pool.free
            &&& pool.refs[b.0 as int] == 1 ==> post.free == pool.free.insert(0, b)
            &&& post.total_allocs == pool.total_allocs
        }),
{
    assert(pool.refs[b.0 as int] == 1 ==> pool.decref(b).free =~= pool.free.insert(0, b));
}

/// References more for a list of blocks: as many for each block as it occurs in the list. Nothing
/// is freed or allocated.
pub proof fn law_references_more(pool: PoolView, blocks: Seq<BlockID>, b: BlockID)
    requires
        pool.has(b),
        pool.can_incref_all(blocks),
    ensures
        ({
            let post = pool.incref_all(blocks);
            &&& post.refs.len() == pool.refs.len()
            &&& post.refs[b.0 as int] == pool.refs[b.0 as int] + blocks.to_multiset().count(b)
            &&& post.free == pool.free
            &&& post.total_allocs == pool.total_allocs
        }),
{
    crate::order::lemma_occurrences_are_counted(blocks, b);
    assert(BlockID(b.0 as int as u32) == b);
}

/// References fewer for a list of blocks: as many for each block as it occurs in the list. The
/// blocks that lose their last reference go to the front of the free list, each once and the last
/// one first; the blocks that are there stay, in their order, behind them.
pub proof fn law_references_fewer(pool: PoolView, blocks: Seq<BlockID>)
    requires
        pool.wf(),
        pool.has_all(blocks),
        pool.can_decref_all(blocks),
    ensures
        ({
            let post = pool.decref_all(blocks);
            let n = post.free.len() - pool.free.len();
            &&& post.refs.len() == pool.refs.len()
            &&& post.total_allocs == pool.total_allocs
            &&& forall|b: BlockID| #[trigger]
                pool.has(b) ==> post.refs[b.0 as int] == pool.refs[b.0 as int]
                    - blocks.to_multiset().count(b)
            &&& n >= 0
            &&& post.free.skip(n) == pool.free
            &&& post.free.no_duplicates()
            &&& forall|b: BlockID| #[trigger]
                post.free.take(n).contains(b) <==> blocks.contains(b) && post.refs[b.0 as int] == 0
            &&& forall|i: int, j: int|
                #![trigger blocks[i], blocks[j]]
                0 <= i < j < blocks.len() && blocks[i] != blocks[j] && post.refs[blocks[i].0 as int]
                    == 0 && post.refs[blocks[j].0 as int] == 0 && (forall|m: int|
                    i < m < blocks.len() ==> #[trigger] blocks[m] != blocks[i])
                    ==> crate::order::before(post.free, blocks[j], blocks[i])
                    || exists|m: int| j < m < blocks.len() && #[trigger] blocks[m] == blocks[j]
        }),
    decreases blocks.len(),
{
    let post = pool.decref_all(blocks);
    let n = post.free.len() - pool.free.len();
    pool.lemma_decref_all(blocks);
    crate::laws::lemma_free_grows(pool, blocks);
    assert forall|b: BlockID| #[trigger] pool.has(b) implies post.refs[b.0 as int]
        == pool.refs[b.0 as int] - blocks.to_multiset().count(b) by {
        crate::order::lemma_occurrences_are_counted(blocks, b);
        assert(post.count(b) == pool.count(b) - crate::lists::occurrences(blocks, b));
    }
    assert forall|b: BlockID| #[trigger] post.free.take(n).contains(b) <==> blocks.contains(b)
        && post.refs[b.0 as int] == 0 by {
        let front = post.free.take(n);
        if front.contains(b) {
            let i = front.index_of(b);
            assert(post.free[i] == b);
            assert(post.has(post.free[i]));
            assert(post.free.contains(b));
            assert(pool.has(b));
            crate::lists::lemma_occurrences_positive(blocks, b);
            if !blocks.contains(b) {
                assert(pool.count(b) == 0);
                let j = pool.free.index_of(b);
                assert(post.free.skip(n)[j] == b);
                assert(post.free[n + j] == post.free[i]);
            }
        }
        if blocks.contains(b) && post.refs[b.0 as int] == 0 {
            assert(pool.has(blocks[blocks.index_of(b)]));
            assert(post.has(b));
            crate::lists::lemma_occurrences_positive(blocks, b);
            let i = post.free.index_of(b);
            if i >= n {
                assert(post.free.skip(n)[i - n] == b);
                assert(pool.free.contains(b));
            }
            assert(front[i] == b);
        }
    }
    lemma_freed_in_reverse(pool, blocks);
}

/// Of two blocks that become free, the one whose last reference is dropped later stands first.
proof fn lemma_freed_in_reverse(pool: PoolView, blocks: Seq<BlockID>)
    requires
        pool.wf(),
        pool.has_all(blocks),
        pool.can_decref_all(blocks),
    ensures
        forall|i: int, j: int|
            #![trigger blocks[i], blocks[j]]
            0 <= i < j < blocks.len() && blocks[i] != blocks[j] && pool.decref_all(
                blocks,
            ).refs[blocks[i].0 as int] == 0 && pool.decref_all(blocks).refs[blocks[j].0 as int] == 0
                && (forall|m: int| i < m < blocks.len() ==> #[trigger] blocks[m] != blocks[i])
                ==> crate::order::before(pool.decref_all(blocks).free, blocks[j], blocks[i])
                || exists|m: int| j < m < blocks.len() && #[trigger] blocks[m] == blocks[j],
    decreases blocks.len(),
{
    let post = pool.decref_all(blocks);
    if blocks.len() > 0 {
        let rest = blocks.drop_last();
        let l = blocks.last();
        let mid = pool.decref_all(rest);
        assert(rest.push(l) =~= blocks);
        assert forall|i: int| 0 <= i < rest.len() implies pool.has(#[trigger] rest[i]) by {
            assert(pool.has(blocks[i]));
        }
        assert forall|c: BlockID| #[trigger] pool.has(c) implies crate::lists::occurrences(rest, c)
            <= pool.count(c) && (c == l ==> crate::lists::occurrences(rest, c) < pool.count(c)) by {
            crate::lists::lemma_occurrences_push(rest, l, c);
        }
        pool.lemma_decref_all(rest);
        lemma_freed_in_reverse(pool, rest);
        assert(pool.has(blocks[blocks.len() - 1]));
        assert forall|i: int, j: int|
            #![trigger blocks[i], blocks[j]]
            0 <= i < j < blocks.len() && blocks[i] != blocks[j] && post.refs[blocks[i].0 as int]
                == 0 && post.refs[blocks[j].0 as int] == 0 && (forall|m: int|
                i < m < blocks.len() ==> #[trigger] blocks[m] != blocks[i])
            implies crate::order::before(post.free, blocks[j], blocks[i]) || exists|m: int|
            j < m < blocks.len() && #[trigger] blocks[m] == blocks[j] by {
            let x = blocks[i];
            let y = blocks[j];
            assert(blocks[blocks.len() - 1] != x);
            assert(rest[i] == x);
            assert(pool.has(blocks[i]));
            assert(pool.has(blocks[j]));
            assert(mid.refs[x.0 as int] == 0);
            assert(mid.has(x));
            assert(mid.count(x) == 0);
            let p = mid.free.index_of(x);
            if y == l {
                if j == blocks.len() - 1 {
                    assert(mid.count(l) == 1);
                    assert(post.free[0] == y && post.free[p + 1] == x);
                } else {
                    assert(blocks[blocks.len() - 1] == y);
                }
            } else {
                assert(rest[j] == y);
                assert(mid.refs[y.0 as int] == 0);
                assert forall|m: int| i < m < rest.len() implies #[trigger] rest[m] != rest[i] by {
                    assert(blocks[m] != blocks[i]);
                }
                if exists|m: int| j < m < rest.len() && #[trigger] rest[m] == rest[j] {
                    let m = choose|m: int| j < m < rest.len() && #[trigger] rest[m] == rest[j];
                    assert(blocks[m] == blocks[j]);
                } else {
                    assert(crate::order::before(mid.free, rest[j], rest[i]));
                    let (a, b) = choose|a: int, b: int|
                        #![trigger mid.free[a], mid.free[b]]
                        0 <= a < b < mid.free.len() && mid.free[a] == y && mid.free[b] == x;
                    let d = post.free.len() - mid.free.len();
                    assert(post.free[a + d] == y && post.free[b + d] == x);
                }
            }
        }
    }
}

// ---------------------------------------------------------------------------------------------
// Block tables
// ---------------------------------------------------------------------------------------------

/// A new or cleared table has no tokens and no blocks.
pub proof fn law_empty_table(block_size: nat)
    ensures
        TableView::empty(block_size).blocks.len() == 0,
        TableView::empty(block_size).num_tokens == 0,
        TableView::empty(block_size).block_size == block_size,
{
}

/// A table has exactly the blocks that its tokens take: all tokens fit, and without the last block
/// they would not.
pub proof fn law_no_block_is_wasted(table: TableView)
    requires
        table.wf(),
        table.block_size > 0,
    ensures
        table.num_tokens <= table.blocks.len() * table.block_size,
        table.blocks.len() * table.block_size < table.num_tokens + table.block_size,
{
    let n = table.num_tokens as int;
    let b = table.block_size as int;
    let k = table.blocks.len() as int;
    crate::lists::lemma_blocks_for_step(table.num_tokens, table.block_size);
    vstd::arithmetic::div_mod::lemma_fundamental_div_mod(n, b);
    assert(b * (n / b) == (n / b) * b) by (nonlinear_arith);
    assert((n / b + 1) * b == (n / b) * b + b) by (nonlinear_arith);
}

/// A token appended where the last block is full starts a block: the one that the pool hands out.
/// Anywhere else it goes into the last block and takes nothing from the pool, unless, with
/// copy-on-write, that block is shared: then a block that the pool hands out takes its place.
pub proof fn law_append(table: TableView, pool: PoolView, cow: bool)
    requires
        table.wf(),
        table.block_size > 0,
        pool.valid(),
        pool.has_all(table.blocks),
    ensures
        ({
            let n = table.blocks.len() as int;
            let starts = table.num_tokens == n * table.block_size;
            let copies = !starts && cow && pool.refs[table.blocks[n - 1].0 as int] > 1;
            let next = pool.free[pool.free.len() - 1];
            let (after, post) = table.appended(pool, cow);
            &&& table.can_append(pool, cow) <==> (starts || copies ==> pool.free.len() > 0)
            &&& after.num_tokens == table.num_tokens + 1
            &&& after.block_size == table.block_size
            &&& starts ==> after.blocks == table.blocks.push(next) && post == pool.allocated()
            &&& !starts ==> n > 0
            &&& copies ==> {
                &&& after.blocks == table.blocks.update(n - 1, next)
                &&& post == pool.allocated().decref(table.blocks[n - 1])
            }
            &&& !starts && !copies ==> after.blocks == table.blocks && post == pool
        }),
{
    let n = table.num_tokens as int;
    let b = table.block_size as int;
    let k = table.blocks.len() as int;
    crate::lists::lemma_blocks_for_step(table.num_tokens, table.block_size);
    vstd::arithmetic::div_mod::lemma_fundamental_div_mod(n, b);
    assert(b * (n / b) == (n / b) * b) by (nonlinear_arith);
    assert((n / b + 1) * b == (n / b) * b + b) by (nonlinear_arith);
}

/// Making a block private: a shared one is replaced by a block that the pool hands out and loses a
/// reference; a block of one reference stays, and nothing happens.
pub proof fn law_unsharing(table: TableView, slot: int, pool: PoolView)
    requires
        0 <= slot < table.blocks.len(),
        pool.valid(),
        pool.has(table.blocks[slot]),
        pool.free.len() > 0,
    ensures
        ({
            let shared = pool.refs[table.blocks[slot].0 as int] > 1;
            let (after, post) = table.unshared(slot, pool);
            &&& after.num_tokens == table.num_tokens
            &&& after.block_size == table.block_size
            &&& shared ==> {
                &&& after.blocks == table.blocks.update(slot, pool.free[pool.free.len() - 1])
                &&& post == pool.allocated().decref(table.blocks[slot])
            }
            &&& !shared ==> after == table && post == pool
        }),
{
}

/// Slot `slot` holds the tokens from `slot * block_size` on, one behind the other: the token at
/// offset `offset` of it has its place there, and no token has two places.
pub proof fn law_places(table: TableView, slot: nat, offset: nat)
    requires
        table.block_size > 0,
        slot < table.blocks.len(),
        offset < table.block_size,
    ensures
        table.place(slot * table.block_size + offset) == (table.blocks[slot as int], offset),
        table.wf() && slot + 1 < table.blocks.len() ==> slot * table.block_size + offset
            < table.num_tokens,
{
    let bs = table.block_size;
    vstd::arithmetic::div_mod::lemma_fundamental_div_mod_converse(
        (slot * bs + offset) as int,
        bs as int,
        slot as int,
        offset as int,
    );
    if table.wf() && slot + 1 < table.blocks.len() {
        law_no_block_is_wasted(table);
        assert(slot * bs + offset < (slot + 1) * bs) by (nonlinear_arith)
            requires
                offset < bs,
        ;
        assert((slot + 2) * bs <= table.blocks.len() * bs) by (nonlinear_arith)
            requires
                slot + 2 <= table.blocks.len(),
        ;
        assert((slot + 2) * bs == (slot + 1) * bs + bs) by (nonlinear_arith);
    }
}

/// The last block is full exactly when the tokens fill all the blocks that there are.
pub proof fn law_last_block_full(table: TableView)
    requires
        table.wf(),
        table.block_size > 0,
    ensures
        table.last_is_full() <==> table.blocks.len() > 0 && table.num_tokens == table.blocks.len()
            * table.block_size,
{
    let n = table.num_tokens as int;
    let b = table.block_size as int;
    crate::lists::lemma_blocks_for_step(table.num_tokens, table.block_size);
    vstd::arithmetic::div_mod::lemma_fundamental_div_mod(n, b);
    assert(b * (n / b) == (n / b) * b) by (nonlinear_arith);
    assert((n / b + 1) * b == (n / b) * b + b) by (nonlinear_arith);
}

/// Whole blocks put behind a table stand there in order, and their tokens count.
pub proof fn law_full_blocks(table: TableView, blocks: Seq<BlockID>, i: int)
    requires
        0 <= i < table.blocks.len() + blocks.len(),
    ensures
        ({
            let after = table.with_full_blocks(blocks);
            &&& after.blocks.len() == table.blocks.len() + blocks.len()
            &&& after.blocks[i] == if i < table.blocks.len() {
                table.blocks[i]
            } else {
                blocks[i - table.blocks.len()]
            }
            &&& after.num_tokens == table.num_tokens + blocks.len() * table.block_size
            &&& after.block_size == table.block_size
        }),
{
}

// ---------------------------------------------------------------------------------------------
// The eviction policy
// ---------------------------------------------------------------------------------------------

/// An access puts a block at the end of the order, whether or not it was there. Every other block
/// stays and keeps its order.
pub proof fn law_access(order: Seq<BlockID>, b: BlockID)
    ensures
        ({
            let post = crate::lists::touch(order, b);
            &&& post.len() > 0
            &&& post[post.len() - 1] == b
            &&& crate::order::refreshed(order, Set::empty().insert(b), post)
            &&& order.no_duplicates() ==> post.no_duplicates()
        }),
{
    crate::order::lemma_touch_refreshes(order, b);
}

/// A block that is freed leaves the order. Every other block stays and keeps its order.
pub proof fn law_free(order: Seq<BlockID>, b: BlockID)
    ensures
        ({
            let post = crate::lists::without(order, b);
            &&& crate::order::thinned(order, Set::empty().insert(b), post)
            &&& !order.contains(b) ==> post == order
            &&& order.no_duplicates() ==> post.no_duplicates()
        }),
{
    crate::order::lemma_without_thins(order, b);
    crate::lists::lemma_without(order, b);
}

/// The victim is the block at `i` exactly if it has one reference and none before it has; there is
/// none exactly if no block of the order has one reference.
pub proof fn law_victim(order: Seq<BlockID>, pool: PoolView, i: int)
    requires
        0 <= i < order.len(),
        forall|j: int| 0 <= j < i ==> pool.refs[(#[trigger] order[j]).0 as int] != 1,
    ensures
        pool.refs[order[i].0 as int] == 1 ==> crate::eviction::first_exclusive(order, pool) == Some(
            order[i],
        ),
        i == order.len() - 1 && pool.refs[order[i].0 as int] != 1
            ==> crate::eviction::first_exclusive(order, pool) is None,
{
    crate::eviction::lemma_first_exclusive(order, pool);
    if pool.refs[order[i].0 as int] == 1 {
        assert(pool.count(order[i]) == 1);
        let b = crate::eviction::first_exclusive(order, pool)->0;
        let p = choose|p: int|
            #![trigger order[p]]
            0 <= p < order.len() && order[p] == b && forall|j: int|
                0 <= j < p ==> pool.count(#[trigger] order[j]) != 1;
        if p < i {
            assert(pool.refs[order[p].0 as int] != 1);
        }
        if i < p {
            assert(pool.count(order[i]) != 1);
        }
    }
}

// ---------------------------------------------------------------------------------------------
// The prefix cache
// ---------------------------------------------------------------------------------------------

/// `path` is known to the cache and carries `b`.
pub open spec fn carries(cache: CacheView, path: Seq<TokenId>, b: BlockID) -> bool {
    cache.nodes.contains_key(path) && cache.nodes[path] == Some(b)
}

/// `path` is known to the cache and carries a block.
pub open spec fn carried(cache: CacheView, path: Seq<TokenId>) -> bool {
    cache.nodes.contains_key(path) && cache.nodes[path] is Some
}

/// A new cache carries nothing.
pub proof fn law_new_cache(block_size: nat, path: Seq<TokenId>)
    ensures
        !carried(CacheView::empty(block_size), path),
        CacheView::empty(block_size).nodes.contains_key(path) <==> path.len() == 0,
        CacheView::empty(block_size).block_size == block_size,
{
    assert(path.len() == 0 ==> path =~= Seq::empty());
}

/// Entering a prompt forgets nothing. The prompt's prefixes become known, those of whole blocks
/// carry its blocks, and every other path is known or not, and carries what it did, as before.
pub proof fn law_insert(
    cache: CacheView,
    tokens: Seq<TokenId>,
    blocks: Seq<BlockID>,
    path: Seq<TokenId>,
)
    requires
        tokens.len() > 0 ==> cache.block_size > 0,
    ensures
        ({
            let post = cache.inserted(tokens, blocks);
            let whole = path.is_prefix_of(tokens) && path.len() > 0 && path.len() % cache.block_size
                == 0;
            &&& post.block_size == cache.block_size
            &&& post.nodes.contains_key(path) <==> cache.nodes.contains_key(path)
                || path.is_prefix_of(tokens)
            &&& whole ==> carries(
                post,
                path,
                blocks[path.len() as int / cache.block_size as int - 1],
            )
            &&& !whole ==> forall|b: BlockID| #[trigger]
                carries(post, path, b) <==> carries(cache, path, b)
            &&& carried(cache, path) ==> carried(post, path)
        }),
{
}

/// Forgetting blocks: the paths that carried one of them carry nothing any more. Every path stays
/// known, and every other path carries what it did.
pub proof fn law_evict(cache: CacheView, blocks: Seq<BlockID>, path: Seq<TokenId>, b: BlockID)
    ensures
        ({
            let post = cache.evicted(blocks);
            &&& post.block_size == cache.block_size
            &&& post.nodes.contains_key(path) <==> cache.nodes.contains_key(path)
            &&& carries(post, path, b) <==> carries(cache, path, b) && !blocks.contains(b)
        }),
{
}

/// What a prompt matches, by blocks: block by block what its prefixes carry, up to the first one
/// that is not whole or carries nothing.
pub proof fn law_matched_blocks(cache: CacheView, tokens: Seq<TokenId>)
    requires
        cache.block_size > 0,
    ensures
        ({
            let bs = cache.block_size;
            let blocks = cache.matched_blocks(tokens);
            let n = blocks.len() as int;
            &&& n * bs <= tokens.len()
            &&& forall|i: int| 0 <= i < n ==> carries(
                cache,
                tokens.take((i + 1) * bs),
                #[trigger] blocks[i],
            )
            &&& (n + 1) * bs > tokens.len() || !carried(cache, tokens.take((n + 1) * bs))
        }),
{
    cache.lemma_hits_are_hits(tokens, 0);
    cache.lemma_covered(tokens);
    let blocks = cache.matched_blocks(tokens);
    assert forall|i: int| 0 <= i < blocks.len() implies carries(
        cache,
        tokens.take((i + 1) * cache.block_size),
        #[trigger] blocks[i],
    ) by {
        assert(cache.block_at(tokens.take((i + 1) * cache.block_size)) == Some(blocks[i]));
    }
}

/// Without a block size nothing matches.
pub proof fn law_match_without_block_size(cache: CacheView, tokens: Seq<TokenId>)
    requires
        cache.block_size == 0,
    ensures
        cache.matched_blocks(tokens).len() == 0,
        cache.matched_tokens(tokens) == 0,
{
    assert((cache.hits(tokens) + 1) * cache.block_size == 0) by (nonlinear_arith)
        requires
            cache.block_size == 0,
    ;
}

/// What a prompt matches, by tokens: it is walked token by token as long as the prefix is known,
/// and no further than a whole block that carries nothing.
pub proof fn law_matched_tokens(cache: CacheView, tokens: Seq<TokenId>)
    requires
        cache.wf(),
        cache.block_size > 0,
    ensures
        ({
            let bs = cache.block_size;
            let m = cache.matched_tokens(tokens) as int;
            &&& m <= tokens.len()
            &&& cache.nodes.contains_key(tokens.take(m))
            &&& forall|i: int|
                0 <= i && (i + 1) * bs < m ==> carried(cache, #[trigger] tokens.take((i + 1) * bs))
            &&& m < tokens.len() ==> {
                ||| !cache.nodes.contains_key(tokens.take(m + 1))
                ||| m > 0 && m % bs as int == 0 && !carried(cache, tokens.take(m))
            }
        }),
{
    let bs = cache.block_size;
    let h = cache.hits(tokens);
    let m = cache.matched_tokens(tokens) as int;
    let reach = (h + 1) * bs;
    let limit = if reach < tokens.len() {
        reach
    } else {
        tokens.len()
    };
    cache.lemma_hits_are_hits(tokens, 0);
    crate::laws::lemma_known_prefix_is_longest(cache, tokens, limit);
    assert forall|i: int| 0 <= i && (i + 1) * bs < m implies carried(
        cache,
        #[trigger] tokens.take((i + 1) * bs),
    ) by {
        if i >= h {
            assert((i + 1) * bs >= (h + 1) * bs) by (nonlinear_arith)
                requires
                    i >= h,
            ;
        }
        assert(cache.hit(tokens, i));
    }
    if m < tokens.len() && m == limit {
        assert(m == reach);
        vstd::arithmetic::div_mod::lemma_fundamental_div_mod_converse(
            m,
            bs as int,
            h as int + 1,
            0,
        );
        assert(!cache.hit(tokens, h as int));
        assert(reach > 0) by (nonlinear_arith)
            requires
                reach == (h + 1) * bs,
                bs > 0,
        ;
    }
}

/// Entering a prompt takes nothing from what another prompt matches: it matches at least as many
/// blocks and tokens as before. As far as it matched, its blocks are those that it had, or, where
/// it starts with the same whole blocks as the entered prompt, those of the entered one.
pub proof fn law_insert_keeps_matches(
    cache: CacheView,
    tokens: Seq<TokenId>,
    blocks: Seq<BlockID>,
    prompt: Seq<TokenId>,
)
    requires
        cache.wf(),
        cache.block_size > 0,
        blocks.len() >= tokens.len() / cache.block_size,
    ensures
        ({
            let bs = cache.block_size;
            let post = cache.inserted(tokens, blocks);
            let old_match = cache.matched_blocks(prompt);
            let new_match = post.matched_blocks(prompt);
            &&& new_match.len() >= old_match.len()
            &&& forall|i: int|
                0 <= i < old_match.len() ==> #[trigger] new_match[i] == if prompt.take(
                    (i + 1) * bs,
                ).is_prefix_of(tokens) {
                    blocks[i]
                } else {
                    old_match[i]
                }
            &&& post.matched_tokens(prompt) >= cache.matched_tokens(prompt)
        }),
{
    let bs = cache.block_size;
    let post = cache.inserted(tokens, blocks);
    let h = cache.hits(prompt);
    let g = post.hits(prompt);
    cache.lemma_hits_are_hits(prompt, 0);
    post.lemma_hits_are_hits(prompt, 0);
    if g < h {
        assert(cache.hit(prompt, g as int));
        law_insert(cache, tokens, blocks, prompt.take((g + 1) * bs as int));
        assert(post.hit(prompt, g as int));
    }
    assert forall|i: int| 0 <= i < h implies #[trigger] post.matched_blocks(prompt)[i]
        == if prompt.take((i + 1) * bs).is_prefix_of(tokens) {
        blocks[i]
    } else {
        cache.matched_blocks(prompt)[i]
    } by {
        let path = prompt.take((i + 1) * bs);
        assert(cache.hit(prompt, i));
        assert((i + 1) * bs > 0) by (nonlinear_arith)
            requires
                i >= 0,
                bs > 0,
        ;
        vstd::arithmetic::div_mod::lemma_fundamental_div_mod_converse(
            (i + 1) * bs,
            bs as int,
            i + 1,
            0,
        );
    }
    // The tokens that were matched still are.
    let m = cache.matched_tokens(prompt);
    let old_limit = if (h + 1) * bs < prompt.len() {
        (h + 1) * bs
    } else {
        prompt.len()
    };
    let new_limit = if (g + 1) * bs < prompt.len() {
        (g + 1) * bs
    } else {
        prompt.len()
    };
    assert((g + 1) * bs >= (h + 1) * bs) by (nonlinear_arith)
        requires
            g >= h,
    ;
    cache.lemma_inserted_wf(tokens, blocks);
    crate::laws::lemma_known_prefix_is_longest(cache, prompt, old_limit);
    crate::laws::lemma_known_prefix_is_longest(post, prompt, new_limit);
    assert(post.nodes.contains_key(prompt.take(m as int)));
}

} // verus!
