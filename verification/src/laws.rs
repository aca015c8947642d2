//! What holds of the library as a whole.
use crate::block_pool::{BlockID, PoolView};
use crate::block_table::TableView;
use crate::prefix_cache::CacheView;
use crate::schedule::{SchedulerView, SequenceView};
use crate::sequence::{SequenceId, SequenceState, TokenId};
use vstd::prelude::*;

verus! {

// ---------------------------------------------------------------------------------------------
// The pool
// ---------------------------------------------------------------------------------------------

/// Every operation on a pool keeps the free list exact: it holds the blocks without a reference,
/// each once. A reference is added to allocated blocks only and dropped where there is one.
pub proof fn law_pool_stays_wf(pool: PoolView, b: BlockID)
    requires
        pool.wf(),
        pool.has(b),
    ensures
        pool.free.len() > 0 ==> pool.allocated().wf(),
        0 < pool.count(b) < u32::MAX ==> pool.incref(b).wf(),
        pool.count(b) > 0 ==> pool.decref(b).wf(),
{
    if pool.free.len() > 0 {
        pool.lemma_allocated();
    }
    if 0 < pool.count(b) < u32::MAX {
        pool.lemma_incref(b);
    }
    if pool.count(b) > 0 {
        pool.lemma_decref(b);
    }
}

/// A block goes back to the free list only when its reference count reaches zero: dropping one of
/// several references leaves it allocated, dropping the last one frees it.
pub proof fn law_shared_block_is_not_freed(pool: PoolView, b: BlockID)
    requires
        pool.wf(),
        pool.has(b),
        pool.count(b) > 0,
    ensures
        pool.decref(b).free.contains(b) <==> pool.count(b) == 1,
        pool.decref(b).count(b) == 0 <==> pool.count(b) == 1,
{
    pool.lemma_decref(b);
    assert(pool.decref(b).has(b));
}

/// Dropping a reference undoes adding one.
pub proof fn law_decref_undoes_incref(pool: PoolView, b: BlockID)
    requires
        pool.has(b),
        0 < pool.count(b) < u32::MAX,
    ensures
        pool.incref(b).decref(b) == pool,
{
    assert(pool.incref(b).decref(b) =~= pool);
}

/// A freshly allocated block has one reference and was free before; no other count changes.
pub proof fn law_allocation_is_exclusive(pool: PoolView, c: BlockID)
    requires
        pool.wf(),
        pool.free.len() > 0,
        pool.has(c),
    ensures
        pool.count(pool.free.last()) == 0,
        pool.allocated().count(pool.free.last()) == 1,
        c != pool.free.last() ==> pool.allocated().count(c) == pool.count(c),
{
    pool.lemma_allocated();
    assert(pool.free.contains(pool.free[pool.free.len() - 1]));
}

/// The indices of the blocks that are in use.
pub open spec fn in_use(pool: PoolView) -> Set<u32> {
    Set::new(|i: u32| pool.has(BlockID(i)) && pool.count(BlockID(i)) > 0)
}

/// Free blocks and blocks in use make up the pool.
pub proof fn law_capacity(pool: PoolView)
    requires
        pool.wf(),
    ensures
        in_use(pool).finite(),
        in_use(pool).len() + pool.free.len() == pool.refs.len(),
{
    let free = Set::new(|i: u32| pool.has(BlockID(i)) && pool.count(BlockID(i)) == 0);
    let all = Set::new(|i: u32| i < pool.refs.len());
    lemma_below(pool.refs.len() as int);
    vstd::set_lib::lemma_len_subset(in_use(pool), all);
    vstd::set_lib::lemma_len_subset(free, all);
    assert(in_use(pool).disjoint(free));
    assert(in_use(pool) + free =~= all);
    vstd::set_lib::lemma_set_disjoint_lens(in_use(pool), free);
    let indices = pool.free.map_values(|b: BlockID| b.0);
    assert(indices.no_duplicates());
    assert forall|i: u32| indices.to_set().contains(i) <==> free.contains(i) by {
        if indices.to_set().contains(i) {
            let j = indices.index_of(i);
            assert(pool.free[j] == BlockID(i));
            assert(pool.has(pool.free[j]));
            assert(pool.free.contains(BlockID(i)));
        }
        if free.contains(i) {
            let j = pool.free.index_of(BlockID(i));
            assert(indices[j] == i);
        }
    }
    assert(indices.to_set() =~= free);
    indices.unique_seq_to_set();
}

proof fn lemma_below(n: int)
    requires
        0 <= n <= u32::MAX,
    ensures
        Set::new(|i: u32| i < n).finite(),
        Set::new(|i: u32| i < n).len() == n,
    decreases n,
{
    let s = Set::new(|i: u32| i < n);
    if n == 0 {
        assert(s =~= Set::empty());
    } else {
        lemma_below(n - 1);
        let r = Set::new(|i: u32| i < n - 1);
        assert(s =~= r.insert((n - 1) as u32));
    }
}

/// Giving up the blocks of a fork undoes the fork: every count and the free list are as before.
pub proof fn law_giving_up_undoes_sharing(pool: PoolView, blocks: Seq<BlockID>)
    requires
        pool.wf(),
        pool.can_incref_all(blocks),
        forall|b: BlockID| #[trigger] blocks.contains(b) ==> pool.has(b) && pool.count(b) > 0,
    ensures
        pool.incref_all(blocks).decref_all(blocks) == pool,
    decreases blocks.len(),
{
    if blocks.len() == 0 {
        assert(blocks =~= Seq::empty());
        pool.lemma_incref_all_empty();
    } else {
        let rest = blocks.drop_last();
        let b = blocks.last();
        assert(blocks =~= rest.push(b));
        assert(blocks.contains(blocks[blocks.len() - 1]));
        assert forall|c: BlockID| #[trigger] rest.contains(c) implies pool.has(c) && pool.count(c)
            > 0 by {
            assert(blocks[rest.index_of(c)] == c);
            assert(blocks.contains(c));
        }
        assert forall|c: BlockID| #[trigger] pool.has(c) implies {
            &&& pool.count(c) + crate::lists::occurrences(rest, c) <= u32::MAX
            &&& crate::lists::occurrences(blocks, c) == crate::lists::occurrences(rest, c)
                + if b == c {
                1nat
            } else {
                0nat
            }
        } by {
            crate::lists::lemma_occurrences_push(rest, b, c);
        }
        // Adding b first and the rest on top of it is adding them all.
        let with_b = pool.incref(b);
        assert forall|c: BlockID| #[trigger] with_b.has(c) implies with_b.count(c)
            + crate::lists::occurrences(rest, c) <= u32::MAX by {
            assert(pool.has(c));
        }
        pool.lemma_incref(b);
        assert forall|c: BlockID| #[trigger] rest.contains(c) implies with_b.has(c)
            && with_b.count(c) > 0 by {
            assert(pool.has(c));
        }
        law_giving_up_undoes_sharing(with_b, rest);
        assert forall|i: int| 0 <= i < pool.refs.len() implies with_b.incref_all(rest).refs[i]
            == pool.incref_all(blocks).refs[i] by {
            let c = BlockID(i as u32);
            assert(pool.has(c));
        }
        assert(with_b.incref_all(rest) =~= pool.incref_all(blocks));
        law_decref_undoes_incref(pool, b);
    }
}

// ---------------------------------------------------------------------------------------------
// Block tables
// ---------------------------------------------------------------------------------------------

/// Every token of a table has a place: slot `i / block_size`, offset `i % block_size`, and the two
/// tell which token it is.
pub proof fn law_every_token_has_a_place(table: TableView, i: nat)
    requires
        table.wf(),
        table.block_size > 0,
        i < table.num_tokens,
    ensures
        i / table.block_size < table.blocks.len(),
        i % table.block_size < table.block_size,
        i == (i / table.block_size) * table.block_size + i % table.block_size,
{
    let bs = table.block_size;
    crate::lists::lemma_blocks_for_step((table.num_tokens - 1) as nat, bs);
    vstd::arithmetic::div_mod::lemma_div_is_ordered(i as int, table.num_tokens - 1, bs as int);
    vstd::arithmetic::div_mod::lemma_fundamental_div_mod(i as int, bs as int);
    assert(bs * (i / bs) == (i / bs) * bs) by (nonlinear_arith);
}

/// Appending a token keeps the tokens that are there in their blocks. Only a copy-on-write of a
/// shared last block moves tokens, and only those of that block.
pub proof fn law_append_keeps_places(table: TableView, pool: PoolView, cow: bool, i: nat)
    requires
        table.wf(),
        table.block_size > 0,
        pool.valid(),
        pool.has_all(table.blocks),
        table.can_append(pool, cow),
        i < table.num_tokens,
    ensures
        table.appended(pool, cow).0.num_tokens == table.num_tokens + 1,
        ({
            let slot = (i / table.block_size) as int;
            let copied = cow && !table.at_boundary() && pool.count(table.blocks.last()) > 1;
            copied && slot == table.blocks.len() - 1 || table.appended(pool, cow).0.blocks[slot]
                == table.blocks[slot]
        }),
{
    law_every_token_has_a_place(table, i);
}

/// After a copy-on-write append nobody else refers to the block that was written to.
pub proof fn law_cow_write_is_exclusive(table: TableView, pool: PoolView)
    requires
        table.wf(),
        table.block_size > 0,
        pool.wf(),
        pool.has_all(table.blocks),
        forall|b: BlockID| #[trigger] table.blocks.contains(b) ==> pool.count(b) > 0,
        table.can_append(pool, true),
    ensures
        table.appended(pool, true).1.count(table.appended(pool, true).0.blocks.last()) == 1,
{
    crate::lists::lemma_blocks_for_step(table.num_tokens, table.block_size);
    if pool.free.len() > 0 {
        pool.lemma_allocated();
        assert(pool.free.contains(pool.free[pool.free.len() - 1]));
        assert(pool.has(pool.free.last()));
    }
    if !table.at_boundary() {
        let last = table.blocks[table.blocks.len() - 1];
        assert(pool.has(last));
        assert(table.blocks.contains(last));
    }
}

/// A private copy is made once: making a block private a second time does nothing.
pub proof fn law_copy_is_made_once(table: TableView, slot: int, pool: PoolView)
    requires
        0 <= slot < table.blocks.len(),
        pool.wf(),
        pool.has(table.blocks[slot]),
        pool.count(table.blocks[slot]) > 1 ==> pool.free.len() > 0,
    ensures
        ({
            let (copy, after) = table.unshared(slot, pool);
            copy.unshared(slot, after) == (copy, after)
        }),
{
    if pool.count(table.blocks[slot]) > 1 {
        pool.lemma_allocated();
        assert(pool.free.contains(pool.free[pool.free.len() - 1]));
        assert(pool.has(pool.free.last()));
    }
}

// ---------------------------------------------------------------------------------------------
// The prefix cache
// ---------------------------------------------------------------------------------------------

/// What was entered is found again: a prompt that starts with `n` tokens of an entered one reuses
/// the blocks of those, as far as they are whole.
pub proof fn law_match_after_insert(
    cache: CacheView,
    tokens: Seq<TokenId>,
    blocks: Seq<BlockID>,
    prompt: Seq<TokenId>,
    n: nat,
)
    requires
        cache.wf(),
        cache.block_size > 0,
        blocks.len() >= tokens.len() / cache.block_size,
        n <= tokens.len(),
        n <= prompt.len(),
        prompt.take(n as int) == tokens.take(n as int),
    ensures
        cache.inserted(tokens, blocks).matched_blocks(prompt).len() >= n / cache.block_size,
        cache.inserted(tokens, blocks).matched_blocks(prompt).take((n / cache.block_size) as int)
            == blocks.take((n / cache.block_size) as int),
{
    let post = cache.inserted(tokens, blocks);
    let bs = cache.block_size;
    let k = n / bs;
    vstd::arithmetic::div_mod::lemma_fundamental_div_mod(n as int, bs as int);
    vstd::arithmetic::div_mod::lemma_div_is_ordered(n as int, tokens.len() as int, bs as int);
    assert forall|i: int| 0 <= i < k implies #[trigger] post.hit(prompt, i) && post.block_at(
        prompt.take((i + 1) * bs),
    ) == Some(blocks[i]) by {
        lemma_block_after_insert(cache, tokens, blocks, i);
        assert((i + 1) * bs <= k * bs) by (nonlinear_arith)
            requires
                i + 1 <= k,
        ;
        assert(bs * k == k * bs) by (nonlinear_arith);
        assert(prompt.take((i + 1) * bs) =~= prompt.take(n as int).take((i + 1) * bs));
        assert(tokens.take((i + 1) * bs) =~= tokens.take(n as int).take((i + 1) * bs));
    }
    post.lemma_hits_are_hits(prompt, 0);
    let h = post.hits(prompt);
    if h < k {
        assert(post.hit(prompt, h as int));
    }
    assert(post.matched_blocks(prompt).take(k as int) =~= blocks.take(k as int)) by {
        assert forall|i: int| 0 <= i < k implies post.matched_blocks(prompt)[i] == blocks[i] by {
            assert(post.hit(prompt, i));
        }
    }
}

proof fn lemma_block_after_insert(
    cache: CacheView,
    tokens: Seq<TokenId>,
    blocks: Seq<BlockID>,
    i: int,
)
    requires
        cache.block_size > 0,
        0 <= i < tokens.len() / cache.block_size,
    ensures
        0 < (i + 1) * cache.block_size <= tokens.len(),
        cache.inserted(tokens, blocks).block_at(tokens.take((i + 1) * cache.block_size)) == Some(
            blocks[i],
        ),
{
    let bs = cache.block_size;
    let q = tokens.len() / bs;
    vstd::arithmetic::div_mod::lemma_fundamental_div_mod(tokens.len() as int, bs as int);
    assert((i + 1) * bs <= q * bs) by (nonlinear_arith)
        requires
            i + 1 <= q,
    ;
    assert(bs * q == q * bs) by (nonlinear_arith);
    assert((i + 1) * bs > 0) by (nonlinear_arith)
        requires
            i >= 0,
            bs > 0,
    ;
    let path = tokens.take((i + 1) * bs);
    vstd::arithmetic::div_mod::lemma_fundamental_div_mod_converse(
        (i + 1) * bs,
        bs as int,
        i + 1,
        0,
    );
    assert(path.is_prefix_of(tokens));
}

/// The whole of an entered prompt is found again, and no block more.
pub proof fn law_match_of_the_inserted(
    cache: CacheView,
    tokens: Seq<TokenId>,
    blocks: Seq<BlockID>,
)
    requires
        cache.wf(),
        cache.block_size > 0,
        blocks.len() >= tokens.len() / cache.block_size,
    ensures
        cache.inserted(tokens, blocks).matched_tokens(tokens) == tokens.len(),
        cache.inserted(tokens, blocks).matched_blocks(tokens) == blocks.take(
            (tokens.len() / cache.block_size) as int,
        ),
{
    let post = cache.inserted(tokens, blocks);
    let bs = cache.block_size;
    let k = tokens.len() / bs;
    law_match_after_insert(cache, tokens, blocks, tokens, tokens.len());
    post.lemma_covered(tokens);
    let h = post.hits(tokens);
    vstd::arithmetic::div_mod::lemma_fundamental_div_mod(tokens.len() as int, bs as int);
    assert(h <= k) by (nonlinear_arith)
        requires
            h * bs <= tokens.len(),
            tokens.len() == bs * k + tokens.len() % bs,
            tokens.len() % bs < bs,
            bs > 0,
    ;
    assert(post.matched_blocks(tokens) =~= blocks.take(k as int));
    assert((k + 1) * bs == bs * k + bs) by (nonlinear_arith);
    assert(tokens.take(tokens.len() as int) =~= tokens);
    assert(tokens.is_prefix_of(tokens));
}

/// A match covers whole blocks only, and no more than the tokens that matched.
pub proof fn law_match_is_within_bounds(cache: CacheView, tokens: Seq<TokenId>)
    requires
        cache.wf(),
    ensures
        cache.matched_blocks(tokens).len() * cache.block_size <= cache.matched_tokens(tokens),
        cache.matched_tokens(tokens) <= tokens.len(),
        cache.nodes.contains_key(tokens.take(cache.matched_tokens(tokens) as int)),
{
    let h = cache.hits(tokens);
    let bs = cache.block_size;
    let reach = (h + 1) * bs;
    let limit = if reach < tokens.len() {
        reach
    } else {
        tokens.len()
    };
    cache.lemma_covered(tokens);
    cache.lemma_hits_are_hits(tokens, 0);
    assert(reach == h * bs + bs) by (nonlinear_arith)
        requires
            reach == (h + 1) * bs,
    ;
    if h > 0 {
        assert(cache.hit(tokens, h - 1));
    } else {
        assert(tokens.take(0) =~= Seq::empty());
        assert(h * bs == 0) by (nonlinear_arith)
            requires
                h == 0,
        ;
    }
    lemma_known_prefix_bounds(cache, tokens, limit, h * bs);
}

proof fn lemma_known_prefix_bounds(cache: CacheView, tokens: Seq<TokenId>, limit: nat, d: nat)
    requires
        cache.wf(),
        d <= limit <= tokens.len(),
        cache.nodes.contains_key(tokens.take(d as int)),
    ensures
        d <= cache.known_prefix(tokens, limit) <= limit,
        cache.nodes.contains_key(tokens.take(cache.known_prefix(tokens, limit) as int)),
    decreases limit,
{
    if !cache.nodes.contains_key(tokens.take(limit as int)) {
        if limit == 0 {
            assert(tokens.take(0) =~= Seq::empty());
        } else {
            lemma_known_prefix_bounds(cache, tokens, (limit - 1) as nat, d);
        }
    }
}

/// The match cannot be extended: the next block is not whole or not in the cache.
pub proof fn law_match_is_longest(cache: CacheView, tokens: Seq<TokenId>)
    ensures
        forall|i: int|
            0 <= i < cache.matched_blocks(tokens).len() ==> #[trigger] cache.hit(tokens, i),
        !cache.hit(tokens, cache.matched_blocks(tokens).len() as int),
{
    cache.lemma_hits_are_hits(tokens, 0);
}

/// A prompt's first `n` tokens match the corresponding part of what the prompt matches: as many
/// tokens, and the blocks that are whole within them.
pub proof fn law_match_of_a_prefix(cache: CacheView, tokens: Seq<TokenId>, n: nat)
    requires
        cache.wf(),
        cache.block_size > 0,
        n <= tokens.len(),
    ensures
        ({
            let whole = n / cache.block_size;
            let blocks = cache.matched_blocks(tokens);
            cache.matched_blocks(tokens.take(n as int)) == if whole < blocks.len() {
                blocks.take(whole as int)
            } else {
                blocks
            }
        }),
        cache.matched_tokens(tokens.take(n as int)) == if n < cache.matched_tokens(tokens) {
            n
        } else {
            cache.matched_tokens(tokens)
        },
{
    let part = tokens.take(n as int);
    let bs = cache.block_size;
    let whole = n / bs;
    let h = cache.hits(tokens);
    let least = if whole < h {
        whole
    } else {
        h
    };
    vstd::arithmetic::div_mod::lemma_fundamental_div_mod(n as int, bs as int);
    assert(bs * whole == whole * bs) by (nonlinear_arith);
    assert((whole + 1) * bs == whole * bs + bs) by (nonlinear_arith);
    cache.lemma_hits_are_hits(tokens, 0);
    assert forall|i: int| 0 <= i < least implies #[trigger] cache.hit(part, i) by {
        assert(cache.hit(tokens, i));
        lemma_whole_block_of_a_prefix(tokens, n, bs, i);
    }
    assert(!cache.hit(part, least as int)) by {
        if least < whole {
            lemma_whole_block_of_a_prefix(tokens, n, bs, least as int);
        }
    }
    cache.lemma_hits(part, 0, least);
    assert forall|i: int| 0 <= i < least implies cache.matched_blocks(part)[i]
        == cache.matched_blocks(tokens)[i] by {
        lemma_whole_block_of_a_prefix(tokens, n, bs, i);
    }
    assert(cache.matched_blocks(part) =~= cache.matched_blocks(tokens).take(least as int));
    assert(cache.matched_blocks(tokens).take(h as int) =~= cache.matched_blocks(tokens));

    let reach = (h + 1) * bs;
    let limit = if reach < tokens.len() {
        reach
    } else {
        tokens.len()
    };
    let part_reach = (least + 1) * bs;
    let part_limit = if part_reach < n {
        part_reach
    } else {
        n
    };
    if least < h {
        assert(reach >= part_reach) by (nonlinear_arith)
            requires
                reach == (h + 1) * bs,
                part_reach == (least + 1) * bs,
                least < h,
        ;
    }
    lemma_known_prefix_is_longest(cache, tokens, limit);
    lemma_known_prefix_is_longest(cache, part, part_limit);
    let m = cache.matched_tokens(tokens);
    let k = cache.matched_tokens(part);
    let x = if n < m {
        n
    } else {
        m
    };
    assert(part.take(k as int) =~= tokens.take(k as int));
    assert(part.take(x as int) =~= tokens.take(m as int).take(x as int));
}

/// The first `n` tokens have the whole blocks within them in common with all tokens.
proof fn lemma_whole_block_of_a_prefix(tokens: Seq<TokenId>, n: nat, bs: nat, i: int)
    requires
        bs > 0,
        n <= tokens.len(),
        0 <= i < n / bs,
    ensures
        0 <= (i + 1) * bs <= n,
        tokens.take(n as int).take((i + 1) * bs) == tokens.take((i + 1) * bs),
{
    let whole = n / bs;
    vstd::arithmetic::div_mod::lemma_fundamental_div_mod(n as int, bs as int);
    assert(bs * whole == whole * bs) by (nonlinear_arith);
    assert(0 <= (i + 1) * bs <= whole * bs) by (nonlinear_arith)
        requires
            0 <= i,
            i + 1 <= whole,
    ;
    assert(tokens.take(n as int).take((i + 1) * bs) =~= tokens.take((i + 1) * bs));
}

/// The longest known prefix is known, and no longer one is.
pub(crate) proof fn lemma_known_prefix_is_longest(cache: CacheView, tokens: Seq<TokenId>, limit: nat)
    requires
        cache.wf(),
        limit <= tokens.len(),
    ensures
        cache.known_prefix(tokens, limit) <= limit,
        cache.nodes.contains_key(tokens.take(cache.known_prefix(tokens, limit) as int)),
        forall|d: int|
            cache.known_prefix(tokens, limit) < d <= limit ==> !cache.nodes.contains_key(
                #[trigger] tokens.take(d),
            ),
    decreases limit,
{
    if limit == 0 {
        assert(tokens.take(0) =~= Seq::empty());
    } else if !cache.nodes.contains_key(tokens.take(limit as int)) {
        lemma_known_prefix_is_longest(cache, tokens, (limit - 1) as nat);
    }
}

/// Forgetting blocks cuts a match just before the first of them: if this is block `n` of the
/// match, the blocks before it are still reused, and the tokens up to its end still match. A match
/// without such a block stays as it is.
pub proof fn law_evict_cuts_a_match(
    cache: CacheView,
    blocks: Seq<BlockID>,
    tokens: Seq<TokenId>,
    n: nat,
)
    requires
        n <= cache.matched_blocks(tokens).len(),
        forall|i: int|
            0 <= i < n ==> !blocks.contains(#[trigger] cache.matched_blocks(tokens)[i]),
        n < cache.matched_blocks(tokens).len() ==> blocks.contains(
            cache.matched_blocks(tokens)[n as int],
        ),
    ensures
        cache.evicted(blocks).matched_blocks(tokens) == cache.matched_blocks(tokens).take(n as int),
        cache.evicted(blocks).matched_tokens(tokens) == if n < cache.matched_blocks(tokens).len() {
            (n + 1) * cache.block_size
        } else {
            cache.matched_tokens(tokens)
        },
{
    let post = cache.evicted(blocks);
    let matched = cache.matched_blocks(tokens);
    cache.lemma_hits_are_hits(tokens, 0);
    cache.lemma_covered(tokens);
    cache.lemma_evicted(blocks);
    assert forall|i: int| 0 <= i < n implies #[trigger] post.hit(tokens, i) by {
        assert(cache.hit(tokens, i));
        assert(!blocks.contains(matched[i]));
    }
    assert(!post.hit(tokens, n as int)) by {
        if n < matched.len() {
            assert(cache.block_at(tokens.take((n + 1) * cache.block_size as int)) == Some(
                matched[n as int],
            ));
        }
    }
    post.lemma_hits(tokens, 0, n);
    assert forall|i: int| 0 <= i < n implies post.matched_blocks(tokens)[i] == matched[i] by {
        assert(!blocks.contains(matched[i]));
    }
    assert(post.matched_blocks(tokens) =~= matched.take(n as int));
    if n < matched.len() {
        assert(cache.hit(tokens, n as int));
        assert(post.nodes.contains_key(tokens.take((n + 1) * cache.block_size as int)));
    } else {
        assert(post.nodes.dom() =~= cache.nodes.dom());
        lemma_known_prefix_same(cache, post, tokens, tokens.len());
        lemma_known_prefix_same(cache, post, tokens, (n + 1) * cache.block_size);
    }
}

/// Which blocks paths carry does not matter to which paths are known.
proof fn lemma_known_prefix_same(
    cache: CacheView,
    other: CacheView,
    tokens: Seq<TokenId>,
    limit: nat,
)
    requires
        cache.nodes.dom() == other.nodes.dom(),
    ensures
        cache.known_prefix(tokens, limit) == other.known_prefix(tokens, limit),
    decreases limit,
{
    assert(cache.nodes.dom().contains(tokens.take(limit as int)) == other.nodes.dom().contains(
        tokens.take(limit as int),
    ));
    if limit > 0 {
        lemma_known_prefix_same(cache, other, tokens, (limit - 1) as nat);
    }
}

/// A block that was forgotten is not reused, whatever the prompt.
pub proof fn law_evicted_block_is_not_matched(
    cache: CacheView,
    blocks: Seq<BlockID>,
    tokens: Seq<TokenId>,
    b: BlockID,
)
    requires
        blocks.contains(b),
    ensures
        !cache.evicted(blocks).holds(b),
        !cache.evicted(blocks).matched_blocks(tokens).contains(b),
{
    let post = cache.evicted(blocks);
    cache.lemma_evicted(blocks);
    post.lemma_covered(tokens);
    if post.matched_blocks(tokens).contains(b) {
        let i = post.matched_blocks(tokens).index_of(b);
        assert(post.block_at(tokens.take((i + 1) * cache.block_size)) == Some(
            post.matched_blocks(tokens)[i],
        ));
    }
}

/// Forgetting blocks touches no other block.
pub proof fn law_evict_keeps_other_blocks(
    cache: CacheView,
    blocks: Seq<BlockID>,
    path: Seq<TokenId>,
    b: BlockID,
)
    requires
        cache.block_at(path) == Some(b),
        !blocks.contains(b),
    ensures
        cache.evicted(blocks).block_at(path) == Some(b),
{
    cache.lemma_evicted(blocks);
}

// ---------------------------------------------------------------------------------------------
// The eviction order
// ---------------------------------------------------------------------------------------------

/// An access makes a block the most recent one and keeps the order of the others; each block is
/// tracked once.
pub proof fn law_access_makes_most_recent(
    order: Seq<BlockID>,
    b: BlockID,
    c: BlockID,
    d: BlockID,
)
    requires
        order.no_duplicates(),
        order.contains(c),
        order.contains(d),
        c != b,
        d != b,
        order.index_of(c) < order.index_of(d),
    ensures
        ({
            let after = crate::lists::touch(order, b);
            &&& after.no_duplicates()
            &&& after.last() == b
            &&& after.contains(c)
            &&& after.contains(d)
            &&& after.index_of(c) < after.index_of(d) < after.index_of(b)
        }),
{
    let after = crate::lists::touch(order, b);
    let rest = crate::lists::without(order, b);
    crate::lists::lemma_touch(order, b);
    lemma_without_order(order, b, order.index_of(c), order.index_of(d));
    let (i, j) = choose|i: int, j: int|
        #![trigger rest[i], rest[j]]
        0 <= i < j < rest.len() && rest[i] == c && rest[j] == d;
    assert(after[i] == c && after[j] == d && after[rest.len() as int] == b);
    assert(after.index_of(c) == i && after.index_of(d) == j);
    assert(after.index_of(b) == rest.len());
}

proof fn lemma_without_order(s: Seq<BlockID>, x: BlockID, i: int, j: int)
    requires
        0 <= i < j < s.len(),
        s[i] != x,
        s[j] != x,
    ensures
        exists|p: int, q: int|
            #![trigger crate::lists::without(s, x)[p], crate::lists::without(s, x)[q]]
            0 <= p < q < crate::lists::without(s, x).len() && crate::lists::without(s, x)[p] == s[i]
                && crate::lists::without(s, x)[q] == s[j],
    decreases s.len(),
{
    let r = s.drop_last();
    let w = crate::lists::without(r, x);
    let v = crate::lists::without(s, x);
    assert(r.push(s.last()) =~= s);
    crate::lists::lemma_without_push(r, s.last(), x);
    if j < r.len() {
        lemma_without_order(r, x, i, j);
        let (p, q) = choose|p: int, q: int|
            #![trigger w[p], w[q]]
            0 <= p < q < w.len() && w[p] == r[i] && w[q] == r[j];
        assert(v[p] == s[i] && v[q] == s[j]);
    } else {
        crate::lists::lemma_without(r, x);
        assert(r[i] == s[i]);
        assert(r.contains(s[i]));
        assert(w.contains(s[i]));
        let p = w.index_of(s[i]);
        let q = w.len() as int;
        assert(v[p] == s[i] && v[q] == s[j]);
    }
}

/// The victim has exactly one reference, and every block accessed less recently has none or
/// several; there is no victim only if no known block has exactly one reference.
pub proof fn law_victim_is_least_recent(state: SchedulerView)
    ensures
        state.victim() is None <==> forall|i: int|
            0 <= i < state.recency.len() ==> state.pool.count(#[trigger] state.recency[i]) != 1,
        state.victim() matches Some(b) ==> state.pool.count(b) == 1 && exists|i: int|
            #![trigger state.recency[i]]
            0 <= i < state.recency.len() && state.recency[i] == b && forall|j: int|
                0 <= j < i ==> state.pool.count(#[trigger] state.recency[j]) != 1,
{
    crate::eviction::lemma_first_exclusive(state.recency, state.pool);
}

// ---------------------------------------------------------------------------------------------
// Accounting: every reference count is the number of slots that refer to the block
// ---------------------------------------------------------------------------------------------

/// What another table for a sequence does to the number of references to `b`.
proof fn lemma_references(
    sequences: Map<i32, SequenceView>,
    k: i32,
    s: SequenceView,
    b: BlockID,
)
    requires
        sequences.dom().finite(),
    ensures
        crate::schedule::references(sequences.insert(k, s), b) + (if sequences.contains_key(k) {
            crate::lists::occurrences(sequences[k].table.blocks, b)
        } else {
            0
        }) == crate::schedule::references(sequences, b) + crate::lists::occurrences(
            s.table.blocks,
            b,
        ),
{
    crate::lists::lemma_total_insert(sequences, crate::schedule::refers_to(b), k, s);
}

/// A slot that refers to a block accounts for one of its references.
proof fn lemma_occurrences_counted(state: SchedulerView, k: i32, b: BlockID)
    requires
        state.wf(),
        state.accounted(),
        state.sequences.contains_key(k),
        state.pool.has(b),
    ensures
        crate::lists::occurrences(state.table(k).blocks, b) <= state.pool.count(b),
        state.table(k).blocks.contains(b) ==> state.pool.count(b) > 0,
{
    crate::lists::lemma_total_remove(state.sequences, crate::schedule::refers_to(b), k);
    crate::lists::lemma_occurrences_positive(state.table(k).blocks, b);
}

/// Where references are accounted for, no sequence drops a reference that is not there: blocks
/// that sequences share are never freed twice.
pub proof fn law_no_double_free(state: SchedulerView, k: i32)
    requires
        state.wf(),
        state.accounted(),
        state.sequences.contains_key(k),
    ensures
        state.pool.can_decref_all(state.table(k).blocks),
        forall|b: BlockID| #[trigger] state.table(k).blocks.contains(b) ==> state.pool.count(b) > 0,
{
    assert(state.fits(k, state.sequences[k]));
    assert forall|b: BlockID| #[trigger] state.pool.has(b) implies crate::lists::occurrences(
        state.table(k).blocks,
        b,
    ) <= state.pool.count(b) by {
        lemma_occurrences_counted(state, k, b);
    }
    assert forall|b: BlockID| #[trigger] state.table(k).blocks.contains(b) implies state.pool.count(
        b,
    ) > 0 by {
        let blocks = state.table(k).blocks;
        assert(state.pool.has(blocks[blocks.index_of(b)]));
        lemma_occurrences_counted(state, k, b);
    }
}

/// Adding a request keeps the accounts.
pub proof fn law_added_is_accounted(state: SchedulerView, tokens: Seq<TokenId>)
    requires
        state.wf(),
        state.accounted(),
        state.next_id < i32::MAX,
    ensures
        state.added(tokens).accounted(),
        state.cache_live() ==> state.added(tokens).cache_live(),
        state.orderly() ==> state.added(tokens).orderly(),
{
    let post = state.added(tokens);
    assert forall|b: BlockID| #[trigger] post.pool.has(b) implies post.pool.count(b)
        == crate::schedule::references(post.sequences, b) by {
        lemma_references(state.sequences, state.next_id, post.sequences[state.next_id], b);
    }
}

/// Forking a sequence keeps the accounts.
pub proof fn law_forked_is_accounted(state: SchedulerView, k: i32)
    requires
        state.wf(),
        state.accounted(),
        state.sequences.contains_key(k),
        state.pool.can_incref_all(state.table(k).blocks),
        state.next_id < i32::MAX,
    ensures
        state.forked(k).accounted(),
        state.cache_live() ==> state.forked(k).cache_live(),
        state.orderly() ==> state.forked(k).orderly(),
{
    let post = state.forked(k);
    let blocks = state.table(k).blocks;
    assert(state.fits(k, state.sequences[k]));
    law_no_double_free(state, k);
    assert forall|b: BlockID| #[trigger] blocks.contains(b) implies state.pool.has(b) by {
        assert(state.pool.has(blocks[blocks.index_of(b)]));
    }
    state.pool.lemma_incref_all(blocks);
    assert forall|b: BlockID| #[trigger] post.pool.has(b) implies post.pool.count(b)
        == crate::schedule::references(post.sequences, b) by {
        let here = state.joined(k).sequences;
        assert(state.pool.has(b));
        if !state.running.contains(SequenceId(k)) {
            lemma_references(state.sequences, k, here[k], b);
        }
        assert(here.dom() =~= state.sequences.dom());
        lemma_references(here, state.next_id, post.sequences[state.next_id], b);
    }
    if state.cache_live() {
        assert forall|path: Seq<TokenId>|
            (#[trigger] post.cache.block_at(path)) matches Some(b) ==> post.pool.count(b) > 0 by {
            assert(state.cache.block_at(path) == post.cache.block_at(path));
            if let Some(b) = state.cache.block_at(path) {
                assert(state.pool.has(b));
            }
        }
    }
    if state.orderly() {
        crate::lists::lemma_touch_all(state.recency, blocks);
        assert forall|b: BlockID| #[trigger] post.pool.has(b) implies (post.recency.contains(b)
            <==> post.pool.count(b) > 0) by {
            assert(state.pool.has(b));
            crate::lists::lemma_occurrences_positive(blocks, b);
        }
    }
}

/// Finishing a sequence keeps the accounts, and the prefix cache forgets every block that becomes
/// free.
pub proof fn law_finished_is_accounted(state: SchedulerView, k: i32)
    requires
        state.wf(),
        state.accounted(),
        state.sequences.contains_key(k),
    ensures
        state.finished(k).accounted(),
        state.cache_live() ==> state.finished(k).cache_live(),
        state.orderly() ==> state.finished(k).orderly(),
{
    let post = state.finished(k);
    let blocks = state.table(k).blocks;
    assert(state.fits(k, state.sequences[k]));
    lemma_released(state, k, post);
    law_no_double_free(state, k);
    state.pool.lemma_decref_all(blocks);
    state.pool.lemma_freed(blocks);
    state.cache.lemma_evicted(state.pool.freed(blocks));
    if state.cache_live() {
        assert forall|path: Seq<TokenId>|
            (#[trigger] post.cache.block_at(path)) matches Some(b) ==> post.pool.count(b) > 0 by {
            if let Some(b) = post.cache.block_at(path) {
                assert(state.cache.block_at(path) == Some(b));
                assert(state.pool.has(b));
                crate::lists::lemma_occurrences_positive(blocks, b);
            }
        }
    }
}

/// Preempting a sequence keeps the accounts, and the prefix cache forgets every block that
/// becomes free.
pub proof fn law_preempted_is_accounted(state: SchedulerView, k: i32)
    requires
        state.wf(),
        state.accounted(),
        state.sequences.contains_key(k),
    ensures
        state.preempted(k).accounted(),
        state.cache_live() ==> state.preempted(k).cache_live(),
        state.orderly() ==> state.preempted(k).orderly(),
{
    let post = state.preempted(k);
    let blocks = state.table(k).blocks;
    assert(state.fits(k, state.sequences[k]));
    lemma_released(state, k, post);
    law_no_double_free(state, k);
    state.pool.lemma_decref_all(blocks);
    state.cache.lemma_evicted(blocks);
    if state.cache_live() {
        assert forall|path: Seq<TokenId>|
            (#[trigger] post.cache.block_at(path)) matches Some(b) ==> post.pool.count(b) > 0 by {
            if let Some(b) = post.cache.block_at(path) {
                assert(state.cache.block_at(path) == Some(b));
                assert(state.pool.has(b));
                crate::lists::lemma_occurrences_positive(blocks, b);
            }
        }
    }
}

/// A sequence that gave up its blocks and has an empty table is accounted for.
proof fn lemma_released(state: SchedulerView, k: i32, post: SchedulerView)
    requires
        state.wf(),
        state.accounted(),
        state.sequences.contains_key(k),
        post.pool == state.pool.decref_all(state.table(k).blocks),
        exists|s: SequenceView|
            s.table.blocks.len() == 0 && post.sequences == #[trigger] state.sequences.insert(k, s),
        post.recency == crate::lists::without_all(
            state.recency,
            state.pool.freed(state.table(k).blocks),
        ),
    ensures
        post.accounted(),
        state.orderly() ==> post.orderly(),
{
    let blocks = state.table(k).blocks;
    let s = choose|s: SequenceView|
        s.table.blocks.len() == 0 && post.sequences == #[trigger] state.sequences.insert(k, s);
    assert(state.fits(k, state.sequences[k]));
    law_no_double_free(state, k);
    state.pool.lemma_decref_all(blocks);
    assert forall|b: BlockID| #[trigger] post.pool.has(b) implies post.pool.count(b)
        == crate::schedule::references(post.sequences, b) by {
        assert(state.pool.has(b));
        lemma_references(state.sequences, k, s, b);
    }
    if state.orderly() {
        state.pool.lemma_freed(blocks);
        crate::lists::lemma_without_all(state.recency, state.pool.freed(blocks));
        assert forall|b: BlockID| #[trigger] post.pool.has(b) implies (post.recency.contains(b)
            <==> post.pool.count(b) > 0) by {
            assert(state.pool.has(b));
            crate::lists::lemma_occurrences_positive(blocks, b);
        }
    }
}

/// A prefill keeps the accounts: the prefix cache holds no free block, so the blocks that the
/// prefill reuses are allocated.
pub proof fn law_prefilled_is_accounted(state: SchedulerView, k: i32)
    requires
        state.wf(),
        state.accounted(),
        state.can_prefill(k),
        state.cache_live(),
    ensures
        state.prefilled(k).accounted(),
        state.prefilled(k).cache_live(),
        state.orderly() ==> state.prefilled(k).orderly(),
{
    let post = state.prefilled(k);
    let tokens = state.sequences[k].token_ids;
    let reused = state.reused(k);
    let shared = state.shared_table(k);
    let n = state.uncovered(k);
    let m = shared.missing(n);
    let fresh = state.pool.upcoming(m);
    let mid = state.pool.incref_all(reused);
    let table = state.prompt_table(k);
    let blocks = state.table(k).blocks;
    assert(state.fits(k, state.sequences[k]));
    state.lemma_reused(k);
    assert(mid.upcoming(m) == fresh);
    assert forall|b: BlockID| #[trigger] reused.contains(b) implies state.pool.has(b)
        && state.pool.count(b) > 0 by {
        assert(state.pool.has(reused[reused.index_of(b)]));
        law_reused_blocks_are_allocated(state, k, b);
    }
    state.pool.lemma_incref_all(reused);
    mid.lemma_allocated_many(m);
    assert(fresh.no_duplicates());
    assert forall|b: BlockID| #[trigger] post.pool.has(b) implies {
        &&& post.pool.count(b) == crate::schedule::references(post.sequences, b)
        &&& post.pool.count(b) > 0 <==> state.pool.count(b) > 0 || reused.contains(b)
            || fresh.contains(b)
    } by {
        assert(state.pool.has(b));
        assert(mid.has(b));
        crate::lists::lemma_occurrences_positive(reused, b);
        assert(BlockID(b.0 as int as u32) == b);
        lemma_references(state.sequences, k, post.sequences[k], b);
        assert(table.blocks =~= (blocks + reused) + fresh);
        crate::lists::lemma_occurrences_add(blocks + reused, fresh, b);
        crate::lists::lemma_occurrences_add(blocks, reused, b);
        crate::lists::lemma_occurrences_once(fresh, b);
        if fresh.contains(b) {
            let i = fresh.index_of(b);
            assert(mid.free[mid.free.len() - 1 - i] == b);
            assert(mid.free.contains(b));
        }
    }
    state.lemma_prefilled(k);
    state.cache.lemma_inserted_wf(tokens, table.blocks);
    assert forall|path: Seq<TokenId>|
        (#[trigger] post.cache.block_at(path)) matches Some(b) ==> post.pool.count(b) > 0 by {
        if let Some(b) = post.cache.block_at(path) {
            assert(post.pool.has(b));
            if table.blocks.contains(b) {
                lemma_occurrences_counted(post, k, b);
            } else {
                assert(state.cache.block_at(path) == Some(b));
                assert(state.pool.has(b));
            }
        }
    }
    if state.orderly() {
        let written = shared.written(state.pool, n);
        let accessed = reused + written;
        shared.lemma_grown(state.pool, n);
        crate::lists::lemma_touch_all(state.recency, accessed);
        if n > 0 {
            crate::lists::lemma_blocks_for_step(shared.num_tokens, shared.block_size);
        }
        assert forall|b: BlockID| #[trigger] post.pool.has(b) implies (post.recency.contains(b)
            <==> post.pool.count(b) > 0) by {
            assert(state.pool.has(b));
            if reused.contains(b) {
                assert(accessed[reused.index_of(b)] == b);
            }
            if fresh.contains(b) {
                let i = shared.blocks.len() - shared.num_tokens / shared.block_size
                    + fresh.index_of(b);
                assert(written[i] == b);
                assert(accessed[reused.len() + i] == b);
            }
            if accessed.contains(b) {
                let i = accessed.index_of(b);
                if i < reused.len() {
                    assert(reused[i] == b);
                } else {
                    assert(written[i - reused.len()] == b);
                    assert(written.contains(b));
                    assert(table.blocks.contains(b));
                    lemma_occurrences_counted(post, k, b);
                }
            }
        }
    }
}

/// While the prefix cache holds no free block, every block that a prefill reuses is allocated.
pub proof fn law_reused_blocks_are_allocated(state: SchedulerView, k: i32, b: BlockID)
    requires
        state.cache_live(),
        state.cache.block_size == state.block_size,
        state.reused(k).contains(b),
    ensures
        state.pool.count(b) > 0,
{
    let tokens = state.sequences[k].token_ids;
    state.cache.lemma_covered(tokens);
    let i = state.reused(k).index_of(b);
    assert(state.cache.block_at(tokens.take((i + 1) * state.block_size)) == Some(
        state.reused(k)[i],
    ));
}

/// Appending a token keeps the accounts.
pub proof fn law_extended_is_accounted(state: SchedulerView, k: i32, cow: bool)
    requires
        state.wf(),
        state.accounted(),
        state.sequences.contains_key(k),
        state.block_size > 0,
        state.can_extend(k, cow),
    ensures
        state.extended(k, cow).accounted(),
        state.cache_live() ==> state.extended(k, cow).cache_live(),
        state.orderly() ==> state.extended(k, cow).orderly(),
{
    let post = state.extended(k, cow);
    let table = state.table(k);
    let pool = state.pool;
    assert(state.fits(k, state.sequences[k]));
    table.lemma_appended(pool, cow);
    crate::lists::lemma_blocks_for_step(table.num_tokens, table.block_size);
    let copied = !table.at_boundary() && cow && pool.count(table.blocks.last()) > 1;
    if table.needs_block(pool, cow) {
        pool.lemma_allocated();
        assert(pool.free.contains(pool.free[pool.free.len() - 1]));
    }
    if !table.at_boundary() {
        assert(pool.has(table.blocks[table.blocks.len() - 1]));
        law_no_double_free(state, k);
        assert(table.blocks.contains(table.blocks[table.blocks.len() - 1]));
    }
    assert forall|b: BlockID| #[trigger] post.pool.has(b) implies {
        &&& post.pool.count(b) == crate::schedule::references(post.sequences, b)
        &&& post.pool.count(b) > 0 <==> pool.count(b) > 0 || b == post.table(k).blocks.last()
    } by {
        assert(pool.has(b));
        lemma_references(state.sequences, k, post.sequences[k], b);
        if table.at_boundary() {
            crate::lists::lemma_occurrences_push(table.blocks, pool.free.last(), b);
        } else if copied {
            crate::lists::lemma_occurrences_update(
                table.blocks,
                table.blocks.len() - 1,
                pool.free.last(),
                b,
            );
        }
    }
    if state.cache_live() {
        assert forall|path: Seq<TokenId>|
            (#[trigger] post.cache.block_at(path)) matches Some(b) ==> post.pool.count(b) > 0 by {
            assert(post.cache.block_at(path) == state.cache.block_at(path));
            if let Some(b) = state.cache.block_at(path) {
                assert(post.pool.has(b));
            }
        }
    }
    if state.orderly() {
        crate::lists::lemma_touch(state.recency, post.table(k).blocks.last());
        assert forall|b: BlockID| #[trigger] post.pool.has(b) implies (post.recency.contains(b)
            <==> post.pool.count(b) > 0) by {
            assert(pool.has(b));
        }
    }
}

/// Generating a token keeps the accounts.
pub(crate) proof fn lemma_generated_is_accounted(state: SchedulerView, k: i32)
    requires
        state.wf(),
        state.accounted(),
        state.sequences.contains_key(k),
    ensures
        state.generated(k).accounted(),
        state.cache_live() ==> state.generated(k).cache_live(),
        state.orderly() ==> state.generated(k).orderly(),
{
    let post = state.generated(k);
    assert forall|b: BlockID| #[trigger] post.pool.has(b) implies post.pool.count(b)
        == crate::schedule::references(post.sequences, b) by {
        lemma_references(state.sequences, k, post.sequences[k], b);
    }
}

/// Making room for a token keeps the parts together and the accounts.
pub(crate) proof fn lemma_room_is_accounted(state: SchedulerView, k: i32, cow: bool, post: SchedulerView)
    requires
        state.wf(),
        state.sequences.contains_key(k),
        state.can_make_room(k, cow),
        state.makes_room(k, cow, post),
    ensures
        post.wf(),
        state.accounted() ==> post.accounted(),
        state.accounted() && state.cache_live() ==> post.cache_live(),
        state.accounted() && state.orderly() ==> post.orderly(),
        post.pool.refs.len() == state.pool.refs.len(),
{
    assert(state.fits(k, state.sequences[k]));
    if state.can_extend(k, cow) {
        state.lemma_extended(k, cow);
        state.table(k).lemma_appended(state.pool, cow);
        if state.accounted() {
            law_extended_is_accounted(state, k, cow);
        }
    } else {
        let v = choose|v: i32|
            {
                let rest = state.preempted(v);
                &&& #[trigger] state.preemptible(v)
                &&& post == if rest.running.contains(SequenceId(k)) {
                    rest.extended(k, cow)
                } else {
                    rest
                }
            };
        let rest = state.preempted(v);
        assert(state.preemptible(v));
        assert(state.fits(v, state.sequences[v]));
        state.lemma_preempted(v);
        state.pool.lemma_decref_all(state.table(v).blocks);
        if state.accounted() {
            law_preempted_is_accounted(state, v);
        }
        if rest.running.contains(SequenceId(k)) {
            assert(rest.fits(k, rest.sequences[k]));
            rest.lemma_extended(k, cow);
            rest.table(k).lemma_appended(rest.pool, cow);
            if state.accounted() {
                law_extended_is_accounted(rest, k, cow);
            }
        }
    }
}

/// A decode step, with or without copy-on-write, keeps the parts together and the accounts. It
/// leaves no free block with the prefix cache or the eviction policy.
pub proof fn law_decoded_is_accounted(
    state: SchedulerView,
    todo: Seq<SequenceId>,
    cow: bool,
    post: SchedulerView,
)
    requires
        state.wf(),
        state.can_decode(todo, cow),
        state.decoded(todo, cow, post),
    ensures
        post.wf(),
        state.accounted() ==> post.accounted(),
        state.accounted() && state.cache_live() ==> post.cache_live(),
        state.accounted() && state.orderly() ==> post.orderly(),
        post.pool.refs.len() == state.pool.refs.len(),
    decreases todo.len(),
{
    if todo.len() > 0 {
        let id = todo.first();
        let rest = todo.drop_first();
        if state.running.contains(id) {
            let here = state.generated(id.0);
            assert(state.sequences.contains_key(state.running[state.running.index_of(id)].0));
            let mid = choose|mid: SchedulerView|
                {
                    &&& #[trigger] here.makes_room(id.0, cow, mid)
                    &&& mid.decoded(rest, cow, post)
                };
            state.lemma_generated(id.0);
            if state.accounted() {
                lemma_generated_is_accounted(state, id.0);
            }
            lemma_room_is_accounted(here, id.0, cow, mid);
            law_decoded_is_accounted(mid, rest, cow, post);
        } else {
            law_decoded_is_accounted(state, rest, cow, post);
        }
    }
}

/// Where references are accounted for, the blocks that block tables refer to are the blocks in
/// use: their number and the number of free blocks make up the pool.
pub proof fn law_used_blocks(state: SchedulerView)
    requires
        state.wf(),
        state.accounted(),
    ensures
        state.used() == in_use(state.pool),
        state.used().len() + state.pool.free.len() == state.pool.refs.len(),
{
    assert forall|i: u32| state.used().contains(i) <==> in_use(state.pool).contains(i) by {
        let b = BlockID(i);
        crate::lists::lemma_total_positive(state.sequences, crate::schedule::refers_to(b));
        if state.used().contains(i) {
            let k = choose|k: i32| #[trigger] state.holds(k, b);
            assert(state.fits(k, state.sequences[k]));
            let blocks = state.table(k).blocks;
            assert(state.pool.has(blocks[blocks.index_of(b)]));
            lemma_occurrences_counted(state, k, b);
        }
        if in_use(state.pool).contains(i) {
            assert(state.pool.has(b));
            let k = choose|k: i32| #[trigger]
                state.sequences.contains_key(k) && crate::schedule::refers_to(b)(
                    state.sequences[k],
                ) > 0;
            crate::lists::lemma_occurrences_positive(state.table(k).blocks, b);
            assert(state.holds(k, b));
        }
    }
    assert(state.used() =~= in_use(state.pool));
    law_capacity(state.pool);
}

/// No more blocks are in use than there are slots.
pub proof fn law_used_blocks_within_slots(state: SchedulerView)
    requires
        state.sequences.dom().finite(),
    ensures
        state.used().finite(),
        state.used().len() <= crate::schedule::slots(state.sequences),
    decreases state.sequences.dom().len(),
{
    if state.sequences.dom().len() == 0 {
        assert forall|i: u32| !state.used().contains(i) by {
            assert forall|k: i32| !#[trigger] state.holds(k, BlockID(i)) by {
                assert(!state.sequences.dom().contains(k));
            }
        }
        assert(state.used() =~= Set::empty());
    } else {
        let k = state.sequences.dom().choose();
        let rest = SchedulerView { sequences: state.sequences.remove(k), ..state };
        law_used_blocks_within_slots(rest);
        crate::lists::lemma_total_remove(state.sequences, crate::schedule::slot_count(), k);
        let own = state.table(k).blocks.map_values(|b: BlockID| b.0);
        own.lemma_cardinality_of_set();
        assert forall|i: u32| #[trigger] state.used().contains(i) implies rest.used().union(
            own.to_set(),
        ).contains(i) by {
            let j = choose|j: i32| #[trigger] state.holds(j, BlockID(i));
            if j == k {
                let p = state.table(k).blocks.index_of(BlockID(i));
                assert(own[p] == i);
            } else {
                assert(rest.holds(j, BlockID(i)));
            }
        }
        vstd::set_lib::lemma_len_union(rest.used(), own.to_set());
        vstd::set_lib::lemma_len_subset(state.used(), rest.used().union(own.to_set()));
    }
}

/// Slots and references are the same thing: there are as many of one as of the other.
pub proof fn law_slots_are_references(state: SchedulerView)
    requires
        state.wf(),
        state.accounted(),
    ensures
        crate::schedule::slots(state.sequences) == crate::lists::sum(state.pool.refs),
{
    let n = state.pool.refs.len();
    assert forall|k: i32| #[trigger] state.sequences.contains_key(k) implies below(
        state.table(k).blocks,
        n,
    ) by {
        assert(state.fits(k, state.sequences[k]));
        assert forall|i: int| 0 <= i < state.table(k).blocks.len() implies (
        #[trigger] state.table(k).blocks[i]).0 < n by {
            assert(state.pool.has(state.table(k).blocks[i]));
        }
    }
    lemma_referred_all(state.sequences, n);
    lemma_referred_sum(state, n);
    assert(state.pool.refs.take(n as int) =~= state.pool.refs);
}

/// There are as many slots as blocks in use exactly where no block is shared: every block has at
/// most one reference.
pub proof fn law_slots_are_blocks_where_nothing_is_shared(state: SchedulerView)
    requires
        state.wf(),
        state.accounted(),
    ensures
        crate::schedule::slots(state.sequences) == state.used().len() <==> forall|b: BlockID|
            #[trigger] state.pool.has(b) ==> state.pool.count(b) <= 1,
{
    let refs = state.pool.refs;
    let n = refs.len();
    law_slots_are_references(state);
    law_used_blocks(state);
    lemma_positive(refs, n);
    assert(refs.take(n as int) =~= refs);
    assert(in_use(state.pool) =~= positive(refs, n));
    if forall|b: BlockID| #[trigger] state.pool.has(b) ==> state.pool.count(b) <= 1 {
        assert forall|i: int| 0 <= i < n implies #[trigger] refs[i] <= 1 by {
            assert(state.pool.has(BlockID(i as u32)));
        }
    }
}

/// Every block of `blocks` is one of the first `n`.
spec fn below(blocks: Seq<BlockID>, n: nat) -> bool {
    forall|i: int| 0 <= i < blocks.len() ==> (#[trigger] blocks[i]).0 < n
}

/// How many times the first `n` blocks occur in `blocks`.
spec fn occurring(blocks: Seq<BlockID>, n: nat) -> nat
    decreases n,
{
    if n == 0 {
        0
    } else {
        occurring(blocks, (n - 1) as nat) + crate::lists::occurrences(
            blocks,
            BlockID((n - 1) as u32),
        )
    }
}

/// How many times `sequences` refer to the first `n` blocks.
spec fn referred(sequences: Map<i32, SequenceView>, n: nat) -> nat
    decreases n,
{
    if n == 0 {
        0
    } else {
        referred(sequences, (n - 1) as nat) + crate::schedule::references(
            sequences,
            BlockID((n - 1) as u32),
        )
    }
}

/// The indices below `n` of the blocks with a reference.
spec fn positive(refs: Seq<u32>, n: nat) -> Set<u32> {
    Set::new(|i: u32| i < n && refs[i as int] > 0)
}

proof fn lemma_occurring_push(blocks: Seq<BlockID>, b: BlockID, n: nat)
    requires
        n <= u32::MAX,
    ensures
        occurring(blocks.push(b), n) == occurring(blocks, n) + if b.0 < n {
            1nat
        } else {
            0nat
        },
    decreases n,
{
    if n > 0 {
        lemma_occurring_push(blocks, b, (n - 1) as nat);
        crate::lists::lemma_occurrences_push(blocks, b, BlockID((n - 1) as u32));
    }
}

proof fn lemma_occurring_none(n: nat)
    ensures
        occurring(Seq::empty(), n) == 0,
    decreases n,
{
    if n > 0 {
        lemma_occurring_none((n - 1) as nat);
    }
}

/// Every slot holds one of the blocks.
proof fn lemma_occurring_all(blocks: Seq<BlockID>, n: nat)
    requires
        n <= u32::MAX,
        below(blocks, n),
    ensures
        occurring(blocks, n) == blocks.len(),
    decreases blocks.len(),
{
    if blocks.len() == 0 {
        assert(blocks =~= Seq::empty());
        lemma_occurring_none(n);
    } else {
        let rest = blocks.drop_last();
        assert(below(rest, n)) by {
            assert forall|i: int| 0 <= i < rest.len() implies (#[trigger] rest[i]).0 < n by {
                assert(blocks[i].0 < n);
            }
        }
        lemma_occurring_all(rest, n);
        assert(blocks[blocks.len() - 1].0 < n);
        lemma_occurring_push(rest, blocks.last(), n);
        assert(rest.push(blocks.last()) =~= blocks);
    }
}

proof fn lemma_referred_remove(sequences: Map<i32, SequenceView>, n: nat, k: i32)
    requires
        sequences.dom().finite(),
        sequences.contains_key(k),
    ensures
        referred(sequences, n) == occurring(sequences[k].table.blocks, n) + referred(
            sequences.remove(k),
            n,
        ),
    decreases n,
{
    if n > 0 {
        lemma_referred_remove(sequences, (n - 1) as nat, k);
        crate::lists::lemma_total_remove(
            sequences,
            crate::schedule::refers_to(BlockID((n - 1) as u32)),
            k,
        );
    }
}

proof fn lemma_referred_none(sequences: Map<i32, SequenceView>, n: nat)
    requires
        sequences.dom().len() == 0,
    ensures
        referred(sequences, n) == 0,
    decreases n,
{
    if n > 0 {
        lemma_referred_none(sequences, (n - 1) as nat);
    }
}

proof fn lemma_referred_all(sequences: Map<i32, SequenceView>, n: nat)
    requires
        n <= u32::MAX,
        sequences.dom().finite(),
        forall|k: i32| #[trigger]
            sequences.contains_key(k) ==> below(sequences[k].table.blocks, n),
    ensures
        referred(sequences, n) == crate::schedule::slots(sequences),
    decreases sequences.dom().len(),
{
    if sequences.dom().len() == 0 {
        lemma_referred_none(sequences, n);
    } else {
        let k = sequences.dom().choose();
        let rest = sequences.remove(k);
        assert(sequences.contains_key(k));
        assert forall|j: i32| #[trigger] rest.contains_key(j) implies below(
            rest[j].table.blocks,
            n,
        ) by {
            assert(sequences.contains_key(j));
        }
        lemma_referred_all(rest, n);
        lemma_referred_remove(sequences, n, k);
        lemma_occurring_all(sequences[k].table.blocks, n);
        crate::lists::lemma_total_remove(sequences, crate::schedule::slot_count(), k);
    }
}

proof fn lemma_referred_sum(state: SchedulerView, n: nat)
    requires
        state.wf(),
        state.accounted(),
        n <= state.pool.refs.len(),
    ensures
        referred(state.sequences, n) == crate::lists::sum(state.pool.refs.take(n as int)),
    decreases n,
{
    if n > 0 {
        let refs = state.pool.refs;
        lemma_referred_sum(state, (n - 1) as nat);
        assert(refs.take(n as int).drop_last() =~= refs.take(n - 1));
        assert(state.pool.has(BlockID((n - 1) as u32)));
    }
}

/// As many blocks have a reference as there are references exactly if none has several.
proof fn lemma_positive(refs: Seq<u32>, n: nat)
    requires
        n <= refs.len() <= u32::MAX,
    ensures
        positive(refs, n).finite(),
        positive(refs, n).len() <= crate::lists::sum(refs.take(n as int)),
        positive(refs, n).len() == crate::lists::sum(refs.take(n as int)) <==> forall|i: int|
            0 <= i < n ==> #[trigger] refs[i] <= 1,
    decreases n,
{
    if n == 0 {
        assert(positive(refs, n) =~= Set::empty());
    } else {
        let m = (n - 1) as nat;
        lemma_positive(refs, m);
        assert(refs.take(n as int).drop_last() =~= refs.take(m as int));
        if refs[m as int] > 0 {
            assert(positive(refs, n) =~= positive(refs, m).insert(m as u32));
        } else {
            assert(positive(refs, n) =~= positive(refs, m));
        }
    }
}

// ---------------------------------------------------------------------------------------------
// Preemption
// ---------------------------------------------------------------------------------------------

/// A sequence can be preempted exactly if some block has exactly one reference.
pub proof fn law_preemption_is_possible(state: SchedulerView)
    requires
        state.wf(),
        state.accounted(),
        state.orderly(),
        state.blocks_evicted < usize::MAX,
    ensures
        state.can_preempt() <==> exists|b: BlockID| #[trigger]
            state.pool.has(b) && state.pool.count(b) == 1,
{
    if state.can_preempt() {
        let k = choose|k: i32| #[trigger] state.preemptible(k);
        crate::eviction::lemma_first_exclusive(state.recency, state.pool);
        let p = choose|p: int|
            #![trigger state.recency[p]]
            0 <= p < state.recency.len() && state.recency[p] == state.victim()->0;
        assert(state.pool.has(state.recency[p]));
    }
    if exists|b: BlockID| #[trigger] state.pool.has(b) && state.pool.count(b) == 1 {
        let b = choose|b: BlockID| #[trigger] state.pool.has(b) && state.pool.count(b) == 1;
        law_preemption(state, state.recency.index_of(b));
    }
}

/// Where references are accounted for, a known block with exactly one reference is enough to
/// preempt a sequence, there is one sequence only to preempt, and preempting it frees a block.
pub proof fn law_preemption(state: SchedulerView, i: int)
    requires
        state.wf(),
        state.accounted(),
        state.blocks_evicted < usize::MAX,
        0 <= i < state.recency.len(),
        state.pool.count(state.recency[i]) == 1,
    ensures
        state.can_preempt(),
        forall|j: i32, k: i32| #[trigger]
            state.preemptible(j) && #[trigger] state.preemptible(k) ==> j == k,
        forall|k: i32| #[trigger]
            state.preemptible(k) ==> state.preempted(k).pool.free.len() > state.pool.free.len(),
{
    crate::eviction::lemma_first_exclusive(state.recency, state.pool);
    let b = state.victim()->0;
    let p = choose|p: int|
        #![trigger state.recency[p]]
        0 <= p < state.recency.len() && state.recency[p] == b;
    assert(state.pool.has(state.recency[p]));
    crate::lists::lemma_total_positive(state.sequences, crate::schedule::refers_to(b));
    let h = choose|k: i32| #[trigger]
        state.sequences.contains_key(k) && crate::schedule::refers_to(b)(state.sequences[k]) > 0;
    crate::lists::lemma_occurrences_positive(state.table(h).blocks, b);
    assert(state.preemptible(h));
    assert forall|k: i32| #[trigger] state.preemptible(k) implies k == h
        && state.pool.can_decref_all(state.table(k).blocks) && state.preempted(k).pool.free.len()
        > state.pool.free.len() by {
        law_no_double_free(state, k);
        crate::lists::lemma_occurrences_positive(state.table(k).blocks, b);
        if k != h {
            let f = crate::schedule::refers_to(b);
            crate::lists::lemma_total_remove(state.sequences, f, k);
            crate::lists::lemma_total_remove(state.sequences.remove(k), f, h);
            assert(false);
        }
        assert(state.fits(k, state.sequences[k]));
        lemma_freed(state.pool, state.table(k).blocks, b);
    }
}

/// Dropping the last reference to a block lengthens the free list.
proof fn lemma_freed(pool: PoolView, blocks: Seq<BlockID>, b: BlockID)
    requires
        pool.wf(),
        pool.has_all(blocks),
        pool.can_decref_all(blocks),
        pool.has(b),
        pool.count(b) == 1,
        blocks.contains(b),
    ensures
        pool.decref_all(blocks).free.len() > pool.free.len(),
{
    pool.lemma_decref_all(blocks);
    lemma_free_grows(pool, blocks);
    crate::lists::lemma_occurrences_positive(blocks, b);
    let post = pool.decref_all(blocks);
    assert(post.has(b));
    assert(post.count(b) == 0);
    if post.free.len() == pool.free.len() {
        assert(post.free =~= pool.free);
        assert(pool.free.contains(b));
    }
}

/// Dropping references puts blocks in front of the free list and takes none from it.
pub(crate) proof fn lemma_free_grows(pool: PoolView, blocks: Seq<BlockID>)
    ensures
        pool.decref_all(blocks).free.len() >= pool.free.len(),
        pool.decref_all(blocks).free.skip(
            pool.decref_all(blocks).free.len() - pool.free.len(),
        ) == pool.free,
    decreases blocks.len(),
{
    let post = pool.decref_all(blocks);
    if blocks.len() > 0 {
        let mid = pool.decref_all(blocks.drop_last());
        lemma_free_grows(pool, blocks.drop_last());
        if mid.count(blocks.last()) == 1 {
            assert(post.free.skip(post.free.len() - pool.free.len()) =~= mid.free.skip(
                mid.free.len() - pool.free.len(),
            ));
        }
    } else {
        assert(post.free.skip(0) =~= pool.free);
    }
}

/// A preempted sequence has an empty table and waits; the prefix cache reuses none of its blocks.
pub proof fn law_preempted_sequence_starts_over(
    state: SchedulerView,
    k: i32,
    prompt: Seq<TokenId>,
    b: BlockID,
)
    requires
        state.sequences.contains_key(k),
        state.table(k).blocks.contains(b),
    ensures
        state.preempted(k).table(k).blocks.len() == 0,
        state.preempted(k).table(k).num_tokens == 0,
        state.preempted(k).waiting.contains(SequenceId(k)),
        !state.preempted(k).running.contains(SequenceId(k)),
        state.preempted(k).sequences[k].token_ids == state.sequences[k].token_ids,
        !state.preempted(k).cache.matched_blocks(prompt).contains(b),
{
    let post = state.preempted(k);
    assert(post.waiting[state.waiting.len() as int] == SequenceId(k));
    crate::lists::lemma_without(state.running, SequenceId(k));
    law_evicted_block_is_not_matched(state.cache, state.table(k).blocks, prompt, b);
}

// ---------------------------------------------------------------------------------------------
// Requests, prefill, fork and finish
// ---------------------------------------------------------------------------------------------

/// The ID of a new request or fork is not in use.
pub proof fn law_new_ids_are_fresh(state: SchedulerView)
    requires
        state.wf(),
    ensures
        !state.sequences.contains_key(state.next_id),
        !state.running.contains(SequenceId(state.next_id)),
        !state.waiting.contains(SequenceId(state.next_id)),
{
    if state.sequences.contains_key(state.next_id) {
        assert(state.fits(state.next_id, state.sequences[state.next_id]));
    }
    let id = SequenceId(state.next_id);
    if state.running.contains(id) {
        assert(state.sequences.contains_key(state.running[state.running.index_of(id)].0));
    }
    if state.waiting.contains(id) {
        assert(state.sequences.contains_key(state.waiting[state.waiting.index_of(id)].0));
    }
}

/// A prefill of a sequence without blocks gives it a place for every token of its prompt. The
/// table starts with the reused blocks, and only the others are allocated.
pub proof fn law_prefill_covers_the_prompt(state: SchedulerView, k: i32)
    requires
        state.wf(),
        state.can_prefill(k),
        state.table(k) == TableView::empty(state.block_size),
    ensures
        ({
            let post = state.prefilled(k);
            let tokens = state.sequences[k].token_ids;
            let reused = state.reused(k);
            &&& post.table(k).num_tokens == tokens.len()
            &&& post.table(k).blocks.len() == crate::lists::blocks_for(
                tokens.len(),
                state.block_size,
            )
            &&& reused.len() <= post.table(k).blocks.len()
            &&& post.table(k).blocks.take(reused.len() as int) == reused
            &&& post.pool.total_allocs == state.pool.total_allocs + post.table(k).blocks.len()
                - reused.len()
            &&& post.running.last() == SequenceId(k)
            &&& !post.waiting.contains(SequenceId(k))
        }),
{
    let post = state.prefilled(k);
    let tokens = state.sequences[k].token_ids;
    let reused = state.reused(k);
    let shared = state.shared_table(k);
    let n = state.uncovered(k);
    state.lemma_reused(k);
    crate::lists::lemma_without(state.waiting, SequenceId(k));
    assert(post.table(k).blocks.take(reused.len() as int) =~= reused);
    if state.block_size > 0 {
        shared.lemma_missing(n);
    } else {
        state.cache.lemma_hits_are_hits(tokens, 0);
        if reused.len() > 0 {
            assert(state.cache.hit(tokens, 0));
        }
    }
}

/// A second request with the same prompt reuses every whole block of the first, as long as nothing
/// was evicted.
pub proof fn law_second_prefill_reuses_the_blocks(state: SchedulerView, k: i32)
    requires
        state.wf(),
        state.can_prefill(k),
        state.block_size > 0,
    ensures
        state.prefilled(k).cache.matched_blocks(state.sequences[k].token_ids)
            == state.prefilled(k).table(k).blocks.take(
            (state.sequences[k].token_ids.len() / state.block_size) as int,
        ),
{
    let tokens = state.sequences[k].token_ids;
    state.lemma_prefilled(k);
    if tokens.len() == 0 {
        assert(tokens.len() / state.block_size == 0) by (nonlinear_arith)
            requires
                tokens.len() == 0,
                state.block_size > 0,
        ;
    }
    law_match_of_the_inserted(state.cache, tokens, state.prompt_table(k).blocks);
}

/// A fork has the tokens and the blocks of its parent. The parent keeps them, and its state if it
/// was running; else it leaves the waiting queue and is decoding. Both run, and every other running
/// sequence goes on.
pub proof fn law_fork_shares_the_table(state: SchedulerView, k: i32)
    requires
        state.wf(),
        state.sequences.contains_key(k),
        state.next_id < i32::MAX,
    ensures
        ({
            let post = state.forked(k);
            &&& post.sequences[k].id == state.sequences[k].id
            &&& post.sequences[k].token_ids == state.sequences[k].token_ids
            &&& post.table(k) == state.table(k)
            &&& if state.running.contains(SequenceId(k)) {
                &&& post.sequences[k].state == state.sequences[k].state
                &&& post.waiting == state.waiting
            } else {
                &&& post.sequences[k].state == SequenceState::Decoding
                &&& !post.waiting.contains(SequenceId(k))
            }
            &&& post.sequences[state.next_id].state == SequenceState::Decoding
            &&& post.table(state.next_id) == state.table(k)
            &&& post.sequences[state.next_id].token_ids == state.sequences[k].token_ids
            &&& post.running.contains(SequenceId(state.next_id))
            &&& post.running.contains(SequenceId(k))
            &&& state.running.is_prefix_of(post.running)
            &&& post.pool.free == state.pool.free
        }),
{
    law_new_ids_are_fresh(state);
    let post = state.forked(k);
    let with_parent = state.joined(k).running;
    crate::lists::lemma_without(state.waiting, SequenceId(k));
    assert(post.running[with_parent.len() as int] == SequenceId(state.next_id));
    assert(with_parent.contains(SequenceId(k))) by {
        if !state.running.contains(SequenceId(k)) {
            assert(with_parent[state.running.len() as int] == SequenceId(k));
        }
    }
    assert(post.running[with_parent.index_of(SequenceId(k))] == SequenceId(k));
}

/// Finishing a fork that has written nothing gives the pool back as it was before the fork.
pub proof fn law_finishing_a_fork_restores_the_pool(state: SchedulerView, k: i32)
    requires
        state.wf(),
        state.accounted(),
        state.sequences.contains_key(k),
        state.pool.can_incref_all(state.table(k).blocks),
        state.next_id < i32::MAX,
    ensures
        state.forked(k).finished(state.next_id).pool == state.pool,
{
    let blocks = state.table(k).blocks;
    assert(state.fits(k, state.sequences[k]));
    law_no_double_free(state, k);
    assert forall|b: BlockID| #[trigger] blocks.contains(b) implies state.pool.has(b)
        && state.pool.count(b) > 0 by {
        assert(state.pool.has(blocks[blocks.index_of(b)]));
    }
    law_giving_up_undoes_sharing(state.pool, blocks);
}

/// Finishing a sequence frees exactly those of its blocks that no other sequence refers to.
pub proof fn law_finish_frees_unshared_blocks(state: SchedulerView, k: i32, b: BlockID)
    requires
        state.wf(),
        state.accounted(),
        state.holds(k, b),
    ensures
        state.finished(k).pool.free.contains(b) <==> !exists|j: i32|
            j != k && #[trigger] state.holds(j, b),
        state.finished(k).table(k).blocks.len() == 0,
        !state.finished(k).running.contains(SequenceId(k)),
{
    let post = state.finished(k);
    let blocks = state.table(k).blocks;
    assert(state.fits(k, state.sequences[k]));
    assert(state.pool.has(blocks[blocks.index_of(b)]));
    law_no_double_free(state, k);
    law_finished_is_accounted(state, k);
    state.pool.lemma_decref_all(blocks);
    assert(post.pool.has(b));
    crate::lists::lemma_without(state.running, SequenceId(k));
    let f = crate::schedule::refers_to(b);
    let others = state.sequences.remove(k);
    crate::lists::lemma_total_remove(state.sequences, f, k);
    crate::lists::lemma_total_positive(others, f);
    if exists|j: i32| j != k && #[trigger] state.holds(j, b) {
        let j = choose|j: i32| j != k && #[trigger] state.holds(j, b);
        crate::lists::lemma_occurrences_positive(state.table(j).blocks, b);
        assert(others.contains_key(j) && f(others[j]) > 0);
    }
    if exists|j: i32| #[trigger] others.contains_key(j) && f(others[j]) > 0 {
        let j = choose|j: i32| #[trigger] others.contains_key(j) && f(others[j]) > 0;
        crate::lists::lemma_occurrences_positive(state.table(j).blocks, b);
        assert(j != k && state.holds(j, b));
    }
}

/// Finishing a sequence takes no block from the prefix cache that another sequence refers to: a
/// prompt that is still held keeps its hits.
pub proof fn law_finish_keeps_held_prefixes(
    state: SchedulerView,
    k: i32,
    j: i32,
    path: Seq<TokenId>,
    b: BlockID,
)
    requires
        state.wf(),
        state.accounted(),
        state.sequences.contains_key(k),
        j != k,
        state.holds(j, b),
        state.cache.block_at(path) == Some(b),
    ensures
        state.finished(k).cache.block_at(path) == Some(b),
{
    let post = state.finished(k);
    let blocks = state.table(k).blocks;
    law_finished_is_accounted(state, k);
    law_no_double_free(state, k);
    assert(state.fits(k, state.sequences[k]));
    state.lemma_finished(k);
    assert(post.holds(j, b));
    law_no_double_free(post, j);
    state.pool.lemma_freed(blocks);
    law_evict_keeps_other_blocks(state.cache, state.pool.freed(blocks), path, b);
}

// ---------------------------------------------------------------------------------------------
// Decoding
// ---------------------------------------------------------------------------------------------

/// The sequence that makes room for a token by preempting `v`, as far as it can.
spec fn after_preempting(state: SchedulerView, v: i32, k: i32, cow: bool) -> SchedulerView {
    if state.preempted(v).running.contains(SequenceId(k)) {
        state.preempted(v).extended(k, cow)
    } else {
        state.preempted(v)
    }
}

/// What making room does to the sequences: to `k` and the preempted one something, to the others
/// nothing.
proof fn lemma_room_effects(state: SchedulerView, k: i32, cow: bool, post: SchedulerView, j: i32)
    requires
        state.wf(),
        state.sequences.contains_key(k),
        state.can_make_room(k, cow),
        state.makes_room(k, cow, post),
        state.sequences.contains_key(j),
    ensures
        post.sequences.contains_key(j),
        post.sequences[j].token_ids == state.sequences[j].token_ids,
        post.running.contains(SequenceId(j)) ==> state.running.contains(SequenceId(j)),
        post.running.contains(SequenceId(j)) && j != k ==> post.sequences[j] == state.sequences[j],
        post.running.contains(SequenceId(k)) ==> {
            &&& post.table(k).num_tokens == state.table(k).num_tokens + 1
            &&& post.table(k).blocks.len() >= state.table(k).blocks.len()
            &&& forall|i: int|
                0 <= i < state.table(k).blocks.len() && (i < state.table(k).blocks.len() - 1 || !cow
                    || state.table(k).at_boundary()) ==> post.table(k).blocks[i]
                    == #[trigger] state.table(k).blocks[i]
        },
        post.pool.total_allocs >= state.pool.total_allocs,
{
    assert(state.fits(k, state.sequences[k]));
    assert(state.fits(j, state.sequences[j]));
    if !state.can_extend(k, cow) {
        let v = choose|v: i32|
            #[trigger] state.preemptible(v) && post == after_preempting(state, v, k, cow);
        assert(state.preemptible(v) && post == after_preempting(state, v, k, cow));
        crate::lists::lemma_without(state.running, SequenceId(v));
        assert(state.fits(v, state.sequences[v]));
        state.pool.lemma_decref_all(state.table(v).blocks);
    }
}

/// What decoding does to a sequence. One that still runs afterwards ran before; if it was to be
/// advanced, it has one token more, a place for it, and its sealed blocks; if it was not, it is
/// untouched.
pub(crate) proof fn lemma_decoded_effects(
    state: SchedulerView,
    todo: Seq<SequenceId>,
    cow: bool,
    post: SchedulerView,
    j: i32,
)
    requires
        state.wf(),
        todo.no_duplicates(),
        state.can_decode(todo, cow),
        state.decoded(todo, cow, post),
        state.sequences.contains_key(j),
    ensures
        post.sequences.contains_key(j),
        post.running.contains(SequenceId(j)) ==> state.running.contains(SequenceId(j)),
        !todo.contains(SequenceId(j)) ==> post.sequences[j].token_ids
            == state.sequences[j].token_ids,
        post.running.contains(SequenceId(j)) && !todo.contains(SequenceId(j))
            ==> post.sequences[j] == state.sequences[j],
        post.running.contains(SequenceId(j)) && todo.contains(SequenceId(j)) ==> advanced(
            state,
            post,
            j,
            cow,
        ),
        post.pool.total_allocs >= state.pool.total_allocs,
    decreases todo.len(),
{
    if todo.len() > 0 {
        let id = todo.first();
        let rest = todo.drop_first();
        assert forall|x: SequenceId| #[trigger] todo.contains(x) <==> x == id || rest.contains(x) by {
            if todo.contains(x) && x != id {
                let i = todo.index_of(x);
                assert(rest[i - 1] == x);
            }
            if rest.contains(x) {
                let i = rest.index_of(x);
                assert(todo[i + 1] == x);
            }
            assert(todo[0] == id);
        }
        assert(!rest.contains(id)) by {
            if rest.contains(id) {
                let i = rest.index_of(id);
                assert(todo[i + 1] == todo[0]);
            }
        }
        assert(rest.no_duplicates());
        if state.running.contains(id) {
            let here = state.generated(id.0);
            assert(state.sequences.contains_key(state.running[state.running.index_of(id)].0));
            let mid = choose|mid: SchedulerView|
                {
                    &&& #[trigger] here.makes_room(id.0, cow, mid)
                    &&& mid.decoded(rest, cow, post)
                };
            state.lemma_generated(id.0);
            lemma_room_is_accounted(here, id.0, cow, mid);
            lemma_room_effects(here, id.0, cow, mid, j);
            lemma_decoded_effects(mid, rest, cow, post, j);
        } else {
            lemma_decoded_effects(state, rest, cow, post, j);
        }
    }
}

/// Sequence `j` has one token more than before and a place for it. Its blocks are the ones that it
/// had; only a last block that was not full may be another one, with copy-on-write.
pub open spec fn advanced(
    state: SchedulerView,
    post: SchedulerView,
    j: i32,
    cow: bool,
) -> bool {
    let before = state.sequences[j];
    let after = post.sequences[j];
    &&& after.token_ids == before.token_ids.push(TokenId(0))
    &&& after.table.num_tokens == before.table.num_tokens + 1
    &&& after.table.blocks.len() >= before.table.blocks.len()
    &&& forall|i: int|
        0 <= i < before.table.blocks.len() && (i < before.table.blocks.len() - 1 || !cow
            || before.table.at_boundary()) ==> after.table.blocks[i]
            == #[trigger] before.table.blocks[i]
}

/// A step advances every running sequence by one token: each sequence that runs after it has
/// decoded exactly one, and its sealed blocks stay as they are. Sequences that did not run keep
/// their tokens.
pub proof fn law_step_advances_running_sequences(
    state: SchedulerView,
    cow: bool,
    post: SchedulerView,
    j: i32,
)
    requires
        state.wf(),
        state.running.no_duplicates(),
        state.can_decode(state.running, cow),
        state.decoded(state.running, cow, post),
        state.sequences.contains_key(j),
    ensures
        post.sequences.contains_key(j),
        post.running.contains(SequenceId(j)) ==> state.running.contains(SequenceId(j)) && advanced(
            state,
            post,
            j,
            cow,
        ),
        !state.running.contains(SequenceId(j)) ==> post.sequences[j].token_ids
            == state.sequences[j].token_ids,
        post.pool.total_allocs >= state.pool.total_allocs,
{
    lemma_decoded_effects(state, state.running, cow, post, j);
}

/// Sequence `j` is the only one to refer to its last block.
pub open spec fn writes_alone(state: SchedulerView, j: i32) -> bool {
    &&& state.table(j).blocks.len() > 0
    &&& state.pool.count(state.table(j).blocks.last()) == 1
}

/// Making room for a token of `k` with copy-on-write leaves the last block of `k` to `k` alone,
/// and that of `j` to `j` alone if it was.
proof fn lemma_room_exclusive(state: SchedulerView, k: i32, post: SchedulerView, j: i32)
    requires
        state.wf(),
        state.accounted(),
        state.sequences.contains_key(k),
        state.can_make_room(k, true),
        state.makes_room(k, true, post),
        state.sequences.contains_key(j),
        post.running.contains(SequenceId(j)),
        j == k || writes_alone(state, j),
    ensures
        writes_alone(post, j),
{
    if state.can_extend(k, true) {
        lemma_extended_exclusive(state, k, j);
    } else {
        let v = choose|v: i32|
            #[trigger] state.preemptible(v) && post == after_preempting(state, v, k, true);
        assert(state.preemptible(v) && post == after_preempting(state, v, k, true));
        let rest = state.preempted(v);
        crate::lists::lemma_without(state.running, SequenceId(v));
        state.lemma_preempted(v);
        law_preempted_is_accounted(state, v);
        if j != v && writes_alone(state, j) {
            let b = state.table(j).blocks.last();
            let blocks = state.table(v).blocks;
            assert(state.fits(j, state.sequences[j]));
            assert(state.fits(v, state.sequences[v]));
            assert(state.table(j).blocks.contains(
                state.table(j).blocks[state.table(j).blocks.len() - 1],
            ));
            assert(state.pool.has(state.table(j).blocks[state.table(j).blocks.len() - 1]));
            state.pool.lemma_decref_all(blocks);
            let f = crate::schedule::refers_to(b);
            crate::lists::lemma_total_remove(state.sequences, f, j);
            crate::lists::lemma_total_remove(state.sequences.remove(j), f, v);
            crate::lists::lemma_occurrences_positive(state.table(j).blocks, b);
            assert(writes_alone(rest, j));
        }
        if rest.running.contains(SequenceId(k)) {
            lemma_extended_exclusive(rest, k, j);
        }
    }
}

proof fn lemma_extended_exclusive(state: SchedulerView, k: i32, j: i32)
    requires
        state.wf(),
        state.accounted(),
        state.sequences.contains_key(k),
        state.sequences.contains_key(j),
        state.block_size > 0,
        state.can_extend(k, true),
        j == k || writes_alone(state, j),
    ensures
        writes_alone(state.extended(k, true), j),
{
    let table = state.table(k);
    let pool = state.pool;
    assert(state.fits(k, state.sequences[k]));
    assert(state.fits(j, state.sequences[j]));
    law_no_double_free(state, k);
    table.lemma_appended(pool, true);
    law_cow_write_is_exclusive(table, pool);
    crate::lists::lemma_blocks_for_step(table.num_tokens, table.block_size);
    if j != k {
        let b = state.table(j).blocks[state.table(j).blocks.len() - 1];
        assert(pool.has(b));
        if pool.free.len() > 0 {
            pool.lemma_allocated();
            assert(pool.free.contains(pool.free[pool.free.len() - 1]));
            assert(pool.has(pool.free.last()));
        }
    }
}

/// After a copy-on-write step every sequence that still runs is the only one to refer to its last
/// block: what it wrote corrupts nobody.
pub proof fn law_cow_step_writes_alone(
    state: SchedulerView,
    todo: Seq<SequenceId>,
    post: SchedulerView,
    j: i32,
)
    requires
        state.wf(),
        state.accounted(),
        state.can_decode(todo, true),
        state.decoded(todo, true, post),
        state.sequences.contains_key(j),
        post.running.contains(SequenceId(j)),
        todo.contains(SequenceId(j)) || writes_alone(state, j),
    ensures
        writes_alone(post, j),
    decreases todo.len(),
{
    if todo.len() > 0 {
        let id = todo.first();
        let rest = todo.drop_first();
        if todo.contains(SequenceId(j)) && id != SequenceId(j) {
            let i = todo.index_of(SequenceId(j));
            assert(rest[i - 1] == SequenceId(j));
        }
        if state.running.contains(id) {
            let here = state.generated(id.0);
            assert(state.sequences.contains_key(state.running[state.running.index_of(id)].0));
            let mid = choose|mid: SchedulerView|
                {
                    &&& #[trigger] here.makes_room(id.0, true, mid)
                    &&& mid.decoded(rest, true, post)
                };
            state.lemma_generated(id.0);
            lemma_generated_is_accounted(state, id.0);
            lemma_room_is_accounted(here, id.0, true, mid);
            lemma_room_effects(here, id.0, true, mid, j);
            lemma_still_running(mid, rest, true, post, j);
            if id == SequenceId(j) || writes_alone(state, j) {
                lemma_room_exclusive(here, id.0, mid, j);
            }
            law_cow_step_writes_alone(mid, rest, post, j);
        } else {
            lemma_still_running(state, rest, true, post, j);
            law_cow_step_writes_alone(state, rest, post, j);
        }
    }
}

/// What runs after decoding ran before.
pub(crate) proof fn lemma_still_running(
    state: SchedulerView,
    todo: Seq<SequenceId>,
    cow: bool,
    post: SchedulerView,
    j: i32,
)
    requires
        state.wf(),
        state.can_decode(todo, cow),
        state.decoded(todo, cow, post),
        state.sequences.contains_key(j),
        post.running.contains(SequenceId(j)),
    ensures
        state.running.contains(SequenceId(j)),
    decreases todo.len(),
{
    if todo.len() > 0 {
        let id = todo.first();
        let rest = todo.drop_first();
        if state.running.contains(id) {
            let here = state.generated(id.0);
            assert(state.sequences.contains_key(state.running[state.running.index_of(id)].0));
            let mid = choose|mid: SchedulerView|
                {
                    &&& #[trigger] here.makes_room(id.0, cow, mid)
                    &&& mid.decoded(rest, cow, post)
                };
            state.lemma_generated(id.0);
            lemma_room_is_accounted(here, id.0, cow, mid);
            lemma_room_effects(here, id.0, cow, mid, j);
            lemma_still_running(mid, rest, cow, post, j);
        } else {
            lemma_still_running(state, rest, cow, post, j);
        }
    }
}

/// How many of the running sequences of `todo` need a block for their next token.
pub open spec fn needing(state: SchedulerView, todo: Seq<SequenceId>, cow: bool) -> nat
    decreases todo.len(),
{
    if todo.len() == 0 {
        0
    } else {
        needing(state, todo.drop_first(), cow) + if state.running.contains(todo.first())
            && state.table(todo.first().0).needs_block(state.pool, cow) {
            1nat
        } else {
            0nat
        }
    }
}

/// While there is a free block for every sequence that needs one, decoding is possible, preempts
/// nobody and takes no more blocks than that. With copy-on-write it may take fewer: the last of
/// several sequences that share a block keeps it.
pub proof fn law_no_preemption_with_room(
    state: SchedulerView,
    todo: Seq<SequenceId>,
    cow: bool,
    post: SchedulerView,
)
    requires
        state.wf(),
        state.accounted(),
        state.block_size > 0,
        todo.no_duplicates(),
        needing(state, todo, cow) <= state.pool.free.len(),
        state.pool.total_allocs + needing(state, todo, cow) <= usize::MAX,
        forall|i: int|
            0 <= i < todo.len() && state.running.contains(#[trigger] todo[i]) ==> state.table(
                todo[i].0,
            ).num_tokens < usize::MAX,
    ensures
        state.can_decode(todo, cow),
        state.decoded(todo, cow, post) ==> {
            &&& post.running == state.running
            &&& post.waiting == state.waiting
            &&& post.blocks_evicted == state.blocks_evicted
            &&& post.pool.free.len() + needing(state, todo, cow) >= state.pool.free.len()
        },
    decreases todo.len(),
{
    if todo.len() > 0 {
        let id = todo.first();
        let rest = todo.drop_first();
        assert(todo[0] == id);
        assert(forall|i: int| 0 <= i < rest.len() ==> #[trigger] rest[i] == todo[i + 1]);
        assert forall|i: int| 0 <= i < rest.len() implies #[trigger] rest[i] != id by {
            assert(rest[i] == todo[i + 1]);
        }
        assert(rest.no_duplicates());
        if state.running.contains(id) {
            let here = state.generated(id.0);
            let mid = here.extended(id.0, cow);
            let table = here.table(id.0);
            assert(state.sequences.contains_key(state.running[state.running.index_of(id)].0));
            assert(state.fits(id.0, state.sequences[id.0]));
            state.lemma_generated(id.0);
            lemma_generated_is_accounted(state, id.0);
            here.lemma_extended(id.0, cow);
            law_extended_is_accounted(here, id.0, cow);
            table.lemma_appended(here.pool, cow);
            crate::lists::lemma_blocks_for_step(table.num_tokens, table.block_size);
            if !table.at_boundary() {
                assert(here.pool.has(table.blocks[table.blocks.len() - 1]));
            }
            lemma_needing_less(state, id.0, cow, rest);
            law_no_preemption_with_room(mid, rest, cow, post);
            assert(here.makes_room(id.0, cow, mid));
        } else {
            law_no_preemption_with_room(state, rest, cow, post);
        }
    }
}

/// A token of `k` makes no other sequence need a block.
proof fn lemma_needing_less(state: SchedulerView, k: i32, cow: bool, todo: Seq<SequenceId>)
    requires
        state.wf(),
        state.accounted(),
        state.sequences.contains_key(k),
        state.block_size > 0,
        state.generated(k).can_extend(k, cow),
        forall|i: int| 0 <= i < todo.len() ==> (#[trigger] todo[i]).0 != k,
    ensures
        needing(state.generated(k).extended(k, cow), todo, cow) <= needing(state, todo, cow),
    decreases todo.len(),
{
    if todo.len() > 0 {
        let j = todo.first().0;
        let rest = todo.drop_first();
        let mid = state.generated(k).extended(k, cow);
        assert(todo[0] == todo.first());
        assert(forall|i: int| 0 <= i < rest.len() ==> #[trigger] rest[i] == todo[i + 1]);
        lemma_needing_less(state, k, cow, rest);
        if state.running.contains(todo.first()) && !state.table(j).at_boundary() {
            let pool = state.pool;
            let blocks = state.table(j).blocks;
            let table = state.table(k);
            assert(state.sequences.contains_key(
                state.running[state.running.index_of(todo.first())].0,
            ));
            assert(state.fits(j, state.sequences[j]));
            assert(state.fits(k, state.sequences[k]));
            crate::lists::lemma_blocks_for_step(state.table(j).num_tokens, state.block_size);
            crate::lists::lemma_blocks_for_step(table.num_tokens, state.block_size);
            let last = blocks[blocks.len() - 1];
            assert(blocks.contains(last));
            assert(pool.has(last));
            law_no_double_free(state, j);
            if table.needs_block(pool, cow) {
                pool.lemma_allocated();
                assert(pool.free.contains(pool.free[pool.free.len() - 1]));
                assert(pool.has(pool.free.last()));
            }
            if !table.at_boundary() {
                assert(pool.has(table.blocks[table.blocks.len() - 1]));
            }
            assert(mid.pool.count(last) <= pool.count(last));
        }
    }
}

/// Handing out one block and then `n` is handing out `n + 1`.
proof fn lemma_allocated_more(pool: PoolView, n: nat)
    requires
        pool.valid(),
        n < pool.free.len(),
    ensures
        pool.allocated().allocated_many(n) == pool.allocated_many(n + 1),
    decreases n,
{
    pool.lemma_allocated();
    if n == 0 {
        pool.allocated().lemma_allocated_many_zero();
        pool.lemma_allocated_many_zero();
        pool.lemma_allocated_many_step(0);
    } else {
        let m = (n - 1) as nat;
        lemma_allocated_more(pool, m);
        pool.allocated().lemma_allocated_many_step(m);
        pool.lemma_allocated_many_step(n);
    }
}

/// Sequences count alike in states that differ in other sequences only.
proof fn lemma_needing_same(state: SchedulerView, other: SchedulerView, todo: Seq<SequenceId>)
    requires
        state.running == other.running,
        forall|i: int|
            0 <= i < todo.len() ==> state.table((#[trigger] todo[i]).0) == other.table(todo[i].0),
    ensures
        needing(state, todo, false) == needing(other, todo, false),
    decreases todo.len(),
{
    if todo.len() > 0 {
        let rest = todo.drop_first();
        assert forall|i: int| 0 <= i < rest.len() implies state.table((#[trigger] rest[i]).0)
            == other.table(rest[i].0) by {
            assert(rest[i] == todo[i + 1]);
        }
        lemma_needing_same(state, other, rest);
        assert(todo[0] == todo.first());
    }
}

/// Without copy-on-write only the sequences that start a block take one. If there is a free block
/// for each of these, decoding is possible, preempts nobody and takes exactly as many blocks.
pub proof fn law_step_takes_blocks_at_boundaries(
    state: SchedulerView,
    todo: Seq<SequenceId>,
    post: SchedulerView,
)
    requires
        state.wf(),
        state.block_size > 0,
        todo.no_duplicates(),
        needing(state, todo, false) <= state.pool.free.len(),
        state.pool.total_allocs + needing(state, todo, false) <= usize::MAX,
        forall|i: int|
            0 <= i < todo.len() && state.running.contains(#[trigger] todo[i]) ==> state.table(
                todo[i].0,
            ).num_tokens < usize::MAX,
    ensures
        state.can_decode(todo, false),
        state.decoded(todo, false, post) ==> {
            &&& post.running == state.running
            &&& post.waiting == state.waiting
            &&& post.blocks_evicted == state.blocks_evicted
            &&& post.pool == state.pool.allocated_many(needing(state, todo, false))
        },
    decreases todo.len(),
{
    if todo.len() == 0 {
        state.pool.lemma_allocated_many_zero();
    } else {
        let id = todo.first();
        let rest = todo.drop_first();
        assert(todo[0] == id);
        assert forall|i: int| 0 <= i < rest.len() implies #[trigger] rest[i] != id by {
            assert(rest[i] == todo[i + 1]);
        }
        assert(rest.no_duplicates());
        if state.running.contains(id) {
            let here = state.generated(id.0);
            let mid = here.extended(id.0, false);
            let table = here.table(id.0);
            assert(state.sequences.contains_key(state.running[state.running.index_of(id)].0));
            assert(state.fits(id.0, state.sequences[id.0]));
            state.lemma_generated(id.0);
            here.lemma_extended(id.0, false);
            table.lemma_appended(here.pool, false);
            assert forall|i: int| 0 <= i < rest.len() implies state.table((#[trigger] rest[i]).0)
                == mid.table(rest[i].0) by {
                assert(rest[i] != id);
            }
            lemma_needing_same(state, mid, rest);
            assert forall|i: int|
                0 <= i < rest.len() && mid.running.contains(#[trigger] rest[i]) implies mid.table(
                rest[i].0,
            ).num_tokens < usize::MAX by {
                assert(rest[i] == todo[i + 1]);
            }
            law_step_takes_blocks_at_boundaries(mid, rest, post);
            assert(here.makes_room(id.0, false, mid));
            if table.at_boundary() {
                lemma_allocated_more(state.pool, needing(state, rest, false));
            }
        } else {
            assert forall|i: int|
                0 <= i < rest.len() && state.running.contains(
                    #[trigger] rest[i],
                ) implies state.table(rest[i].0).num_tokens < usize::MAX by {
                assert(rest[i] == todo[i + 1]);
            }
            law_step_takes_blocks_at_boundaries(state, rest, post);
        }
    }
}

/// Some block is free or has exactly one reference.
pub open spec fn roomy(state: SchedulerView) -> bool {
    ||| state.pool.free.len() > 0
    ||| exists|b: BlockID| #[trigger] state.pool.has(b) && state.pool.count(b) == 1
}

/// When a step is possible, also on a full pool: exactly if some block is free or has exactly one
/// reference, or no sequence needs a block. A block that is needed can then always be had, if
/// need be by preempting a sequence.
pub proof fn law_decoding_is_possible(state: SchedulerView, todo: Seq<SequenceId>, cow: bool)
    requires
        state.wf(),
        state.accounted(),
        state.orderly(),
        state.block_size > 0,
        roomy(state) || todo.no_duplicates(),
        state.blocks_evicted + todo.len() <= usize::MAX,
        state.pool.total_allocs + todo.len() <= usize::MAX,
        forall|k: i32| #[trigger]
            state.sequences.contains_key(k) ==> state.table(k).num_tokens + todo.len() <= usize::MAX,
    ensures
        state.can_decode(todo, cow) <==> roomy(state) || forall|i: int|
            0 <= i < todo.len() && state.running.contains(#[trigger] todo[i]) ==> !state.table(
                todo[i].0,
            ).needs_block(state.pool, cow),
    decreases todo.len(),
{
    if todo.len() > 0 {
        let id = todo.first();
        let rest = todo.drop_first();
        assert(todo[0] == id);
        assert(forall|i: int| 0 <= i < rest.len() ==> #[trigger] rest[i] == todo[i + 1]);
        assert(forall|i: int| 1 <= i < todo.len() ==> #[trigger] todo[i] == rest[i - 1]);
        assert(todo.no_duplicates() ==> rest.no_duplicates());
        if state.running.contains(id) {
            let k = id.0;
            let here = state.generated(k);
            assert(state.sequences.contains_key(state.running[state.running.index_of(id)].0));
            assert(state.fits(k, state.sequences[k]));
            state.lemma_generated(k);
            lemma_generated_is_accounted(state, k);
            if roomy(state) {
                lemma_room_is_found(here, k, cow);
                assert forall|mid: SchedulerView| #[trigger]
                    here.makes_room(k, cow, mid) implies mid.can_decode(rest, cow) by {
                    lemma_room_is_accounted(here, k, cow, mid);
                    lemma_room_stays(here, k, cow, mid);
                    assert forall|j: i32| #[trigger] mid.sequences.contains_key(j) implies mid.table(
                        j,
                    ).num_tokens + rest.len() <= usize::MAX by {
                        assert(here.sequences.contains_key(j));
                        assert(state.sequences.contains_key(j));
                        assert(here.table(j).num_tokens == state.table(j).num_tokens);
                    }
                    law_decoding_is_possible(mid, rest, cow);
                }
            } else if state.table(k).needs_block(state.pool, cow) {
                law_preemption_is_possible(here);
                assert(!here.can_make_room(k, cow));
            } else {
                let mid = here.extended(k, cow);
                here.lemma_extended(k, cow);
                law_extended_is_accounted(here, k, cow);
                crate::lists::lemma_blocks_for_step(state.table(k).num_tokens, state.block_size);
                assert(mid.pool == state.pool);
                assert forall|j: i32| #[trigger] mid.sequences.contains_key(j) implies mid.table(
                    j,
                ).num_tokens + rest.len() <= usize::MAX by {
                    assert(state.sequences.contains_key(j));
                }
                law_decoding_is_possible(mid, rest, cow);
                assert forall|i: int| 0 <= i < rest.len() implies mid.table((#[trigger] rest[i]).0)
                    == state.table(rest[i].0) by {
                    assert(todo[i + 1] != todo[0]);
                }
                assert(here.makes_room(k, cow, mid));
                assert(here.can_make_room(k, cow));
            }
        } else {
            law_decoding_is_possible(state, rest, cow);
        }
    }
}

/// Where some block is free or has exactly one reference, a sequence can make room.
proof fn lemma_room_is_found(state: SchedulerView, k: i32, cow: bool)
    requires
        state.wf(),
        state.accounted(),
        state.orderly(),
        state.sequences.contains_key(k),
        state.block_size > 0,
        roomy(state),
        state.blocks_evicted < usize::MAX,
        state.pool.total_allocs < usize::MAX,
        state.table(k).num_tokens < usize::MAX,
    ensures
        state.can_make_room(k, cow),
        !state.can_extend(k, cow) ==> forall|v: i32| #[trigger]
            state.preemptible(v) ==> state.preempted(v).pool.free.len() > 0,
{
    if !state.can_extend(k, cow) {
        law_preemption_is_possible(state);
        let b = choose|b: BlockID| #[trigger] state.pool.has(b) && state.pool.count(b) == 1;
        law_preemption(state, state.recency.index_of(b));
        assert forall|v: i32| #[trigger]
            state.preemptible(v) && state.preempted(v).running.contains(SequenceId(k)) implies {
            &&& state.preempted(v).can_extend(k, cow)
            &&& state.preempted(v).table(k).append_in_limits(state.preempted(v).pool, cow)
        } by {
            crate::lists::lemma_without(state.running, SequenceId(v));
            assert(state.fits(v, state.sequences[v]));
            state.pool.lemma_decref_all(state.table(v).blocks);
        }
    }
}

/// Making room leaves some block free or with exactly one reference.
proof fn lemma_room_stays(state: SchedulerView, k: i32, cow: bool, post: SchedulerView)
    requires
        state.wf(),
        state.accounted(),
        state.orderly(),
        state.sequences.contains_key(k),
        state.block_size > 0,
        roomy(state),
        state.blocks_evicted < usize::MAX,
        state.pool.total_allocs < usize::MAX,
        state.table(k).num_tokens < usize::MAX,
        state.makes_room(k, cow, post),
    ensures
        roomy(post),
        post.block_size == state.block_size,
        post.blocks_evicted <= state.blocks_evicted + 1,
        post.pool.total_allocs <= state.pool.total_allocs + 1,
        post.sequences.dom() == state.sequences.dom(),
        forall|j: i32| #[trigger]
            state.sequences.contains_key(j) ==> post.table(j).num_tokens
                <= state.table(j).num_tokens + 1,
{
    assert(state.fits(k, state.sequences[k]));
    if state.can_extend(k, cow) {
        lemma_extended_roomy(state, k, cow);
        assert(post.sequences.dom() =~= state.sequences.dom());
    } else {
        lemma_room_is_found(state, k, cow);
        let v = choose|v: i32|
            #[trigger] state.preemptible(v) && post == after_preempting(state, v, k, cow);
        assert(state.preemptible(v) && post == after_preempting(state, v, k, cow));
        let rest = state.preempted(v);
        assert(state.fits(v, state.sequences[v]));
        state.pool.lemma_decref_all(state.table(v).blocks);
        state.lemma_preempted(v);
        law_preempted_is_accounted(state, v);
        if rest.running.contains(SequenceId(k)) {
            lemma_extended_roomy(rest, k, cow);
        }
        assert(post.sequences.dom() =~= state.sequences.dom());
    }
}

/// A block that has just been taken has exactly one reference.
proof fn lemma_extended_roomy(state: SchedulerView, k: i32, cow: bool)
    requires
        state.wf(),
        state.accounted(),
        state.sequences.contains_key(k),
        state.block_size > 0,
        roomy(state),
        state.can_extend(k, cow),
    ensures
        roomy(state.extended(k, cow)),
        state.extended(k, cow).pool.total_allocs <= state.pool.total_allocs + 1,
{
    let table = state.table(k);
    let pool = state.pool;
    let post = state.extended(k, cow);
    assert(state.fits(k, state.sequences[k]));
    table.lemma_appended(pool, cow);
    crate::lists::lemma_blocks_for_step(table.num_tokens, table.block_size);
    if !table.at_boundary() {
        assert(pool.has(table.blocks[table.blocks.len() - 1]));
    }
    if table.needs_block(pool, cow) {
        let b = pool.free.last();
        pool.lemma_allocated();
        assert(pool.free.contains(pool.free[pool.free.len() - 1]));
        assert(pool.has(b));
        assert(post.pool.has(b) && post.pool.count(b) == 1);
    } else {
        assert(post.pool == pool);
    }
}

/// Where references are accounted for, decoding has one outcome only.
pub proof fn law_decoding_is_deterministic(
    state: SchedulerView,
    todo: Seq<SequenceId>,
    cow: bool,
    post: SchedulerView,
    other: SchedulerView,
)
    requires
        state.wf(),
        state.accounted(),
        state.can_decode(todo, cow),
        state.decoded(todo, cow, post),
        state.decoded(todo, cow, other),
    ensures
        post == other,
    decreases todo.len(),
{
    if todo.len() > 0 {
        let id = todo.first();
        let rest = todo.drop_first();
        if state.running.contains(id) {
            let here = state.generated(id.0);
            assert(state.sequences.contains_key(state.running[state.running.index_of(id)].0));
            let a = choose|mid: SchedulerView|
                {
                    &&& #[trigger] here.makes_room(id.0, cow, mid)
                    &&& mid.decoded(rest, cow, post)
                };
            let b = choose|mid: SchedulerView|
                {
                    &&& #[trigger] here.makes_room(id.0, cow, mid)
                    &&& mid.decoded(rest, cow, other)
                };
            state.lemma_generated(id.0);
            lemma_generated_is_accounted(state, id.0);
            if !here.can_extend(id.0, cow) {
                let v = choose|v: i32|
                    #[trigger] here.preemptible(v) && a == after_preempting(here, v, id.0, cow);
                let w = choose|v: i32|
                    #[trigger] here.preemptible(v) && b == after_preempting(here, v, id.0, cow);
                assert(here.preemptible(v) && a == after_preempting(here, v, id.0, cow));
                assert(here.preemptible(w) && b == after_preempting(here, w, id.0, cow));
                crate::eviction::lemma_first_exclusive(here.recency, here.pool);
                let p = choose|p: int|
                    #![trigger here.recency[p]]
                    0 <= p < here.recency.len() && here.recency[p] == here.victim()->0;
                law_preemption(here, p);
            }
            lemma_room_is_accounted(here, id.0, cow, a);
            law_decoding_is_deterministic(a, rest, cow, post, other);
        } else {
            law_decoding_is_deterministic(state, rest, cow, post, other);
        }
    }
}

// ---------------------------------------------------------------------------------------------
// Every run of the scheduler
// ---------------------------------------------------------------------------------------------

/// A new scheduler is consistent: nothing is referred to, and every block is free once.
pub proof fn law_new_scheduler_is_consistent(num_blocks: nat, block_size: nat)
    requires
        num_blocks <= u32::MAX,
    ensures
        SchedulerView::fresh(num_blocks, block_size).consistent(),
        SchedulerView::fresh(num_blocks, block_size).pool.free.len() == num_blocks,
{
    let state = SchedulerView::fresh(num_blocks, block_size);
    assert forall|b: BlockID| #[trigger] state.pool.has(b) implies state.pool.free.contains(b) by {
        assert(state.pool.free[b.0 as int] == b);
    }
    assert forall|path: Seq<TokenId>, n: int| #[trigger]
        state.cache.nodes.contains_key(path) && 0 <= n
            <= path.len() implies state.cache.nodes.contains_key(#[trigger] path.take(n)) by {
        assert(path.take(n) =~= path);
    }
}

/// Every operation of the scheduler keeps it consistent, finishing a sequence included.
pub proof fn law_operations_keep_consistency(state: SchedulerView, post: SchedulerView)
    requires
        state.consistent(),
        state.steps_to(post),
    ensures
        post.consistent(),
        post.pool.refs.len() == state.pool.refs.len(),
{
    if state.next_id < i32::MAX && exists|tokens: Seq<TokenId>| post == #[trigger] state.added(tokens) {
        let tokens = choose|tokens: Seq<TokenId>| post == #[trigger] state.added(tokens);
        state.lemma_added(tokens);
        law_added_is_accounted(state, tokens);
    } else if exists|k: i32| state.can_prefill(k) && post == #[trigger] state.prefilled(k) {
        let k = choose|k: i32| state.can_prefill(k) && post == #[trigger] state.prefilled(k);
        state.lemma_prefilled(k);
        law_prefilled_is_accounted(state, k);
    } else if exists|k: i32|
        {
            &&& state.sequences.contains_key(k)
            &&& state.pool.can_incref_all(state.table(k).blocks)
            &&& state.next_id < i32::MAX
            &&& post == #[trigger] state.forked(k)
        } {
        let k = choose|k: i32|
            {
                &&& state.sequences.contains_key(k)
                &&& state.pool.can_incref_all(state.table(k).blocks)
                &&& state.next_id < i32::MAX
                &&& post == #[trigger] state.forked(k)
            };
        state.lemma_forked(k);
        law_forked_is_accounted(state, k);
    } else if exists|k: i32|
        {
            &&& state.sequences.contains_key(k)
            &&& state.pool.can_decref_all(state.table(k).blocks)
            &&& post == #[trigger] state.finished(k)
        } {
        let k = choose|k: i32|
            {
                &&& state.sequences.contains_key(k)
                &&& state.pool.can_decref_all(state.table(k).blocks)
                &&& post == #[trigger] state.finished(k)
            };
        assert(state.fits(k, state.sequences[k]));
        state.pool.lemma_decref_all(state.table(k).blocks);
        state.lemma_finished(k);
        law_finished_is_accounted(state, k);
    } else if state.can_preempt() && exists|k: i32|
        state.preemptible(k) && post == #[trigger] state.preempted(k) {
        let k = choose|k: i32| state.preemptible(k) && post == #[trigger] state.preempted(k);
        assert(state.fits(k, state.sequences[k]));
        state.pool.lemma_decref_all(state.table(k).blocks);
        state.lemma_preempted(k);
        law_preempted_is_accounted(state, k);
    } else {
        let cow = choose|cow: bool|
            state.can_decode(state.running, cow) && #[trigger] state.decoded(
                state.running,
                cow,
                post,
            );
        law_decoded_is_accounted(state, state.running, cow, post);
    }
}

/// `run` lists the states of a scheduler from its start, one operation after the other.
pub open spec fn is_run(run: Seq<SchedulerView>, num_blocks: nat, block_size: nat) -> bool {
    &&& run.len() > 0
    &&& run[0] == SchedulerView::fresh(num_blocks, block_size)
    &&& forall|i: int| 0 <= i < run.len() - 1 ==> (#[trigger] run[i]).steps_to(run[i + 1])
}

/// Blocks are never freed twice, whatever is done with a scheduler: in every state the free list
/// holds each block at most once and no block that is referred to, free and used blocks make up
/// the pool, and every sequence holds a reference for each of its slots.
pub proof fn law_blocks_are_never_freed_twice(
    run: Seq<SchedulerView>,
    num_blocks: nat,
    block_size: nat,
    i: int,
)
    requires
        num_blocks <= u32::MAX,
        is_run(run, num_blocks, block_size),
        0 <= i < run.len(),
    ensures
        run[i].consistent(),
        run[i].pool.free.no_duplicates(),
        forall|b: BlockID| #[trigger]
            run[i].pool.free.contains(b) ==> forall|k: i32| !#[trigger] run[i].holds(k, b),
        run[i].used().len() + run[i].pool.free.len() == num_blocks,
        forall|k: i32| #[trigger]
            run[i].sequences.contains_key(k) ==> run[i].pool.can_decref_all(run[i].table(k).blocks),
{
    let state = run[i];
    lemma_run_is_consistent(run, num_blocks, block_size, i);
    law_used_blocks(state);
    assert forall|b: BlockID| #[trigger] state.pool.free.contains(b) implies forall|k: i32|
        !#[trigger] state.holds(k, b) by {
        assert(state.pool.has(state.pool.free[state.pool.free.index_of(b)]));
        assert forall|k: i32| !#[trigger] state.holds(k, b) by {
            if state.holds(k, b) {
                law_no_double_free(state, k);
            }
        }
    }
    assert forall|k: i32| #[trigger] state.sequences.contains_key(k) implies state.pool.can_decref_all(
        state.table(k).blocks,
    ) by {
        law_no_double_free(state, k);
    }
}

proof fn lemma_run_is_consistent(
    run: Seq<SchedulerView>,
    num_blocks: nat,
    block_size: nat,
    i: int,
)
    requires
        num_blocks <= u32::MAX,
        is_run(run, num_blocks, block_size),
        0 <= i < run.len(),
    ensures
        run[i].consistent(),
        run[i].pool.refs.len() == num_blocks,
    decreases i,
{
    if i == 0 {
        law_new_scheduler_is_consistent(num_blocks, block_size);
    } else {
        lemma_run_is_consistent(run, num_blocks, block_size, i - 1);
        assert(run[i - 1].steps_to(run[i - 1 + 1]));
        law_operations_keep_consistency(run[i - 1], run[i]);
    }
}

} // verus!
