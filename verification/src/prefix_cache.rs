//! A radix trie keyed on token IDs that remembers which block holds which prefix.
use crate::block_pool::BlockID;
use crate::keys::keys_of;
use crate::sequence::TokenId;
use std::collections::HashMap;
use vstd::prelude::*;

verus! {

/// The state of a prefix cache: the token paths that it knows, the block that each of them
/// carries, if any, and the number of tokens in a block.
#[verifier::ext_equal]
pub struct CacheView {
    pub nodes: Map<Seq<TokenId>, Option<BlockID>>,
    pub block_size: nat,
}

impl CacheView {
    /// A cache that knows the empty path only.
    pub open spec fn empty(block_size: nat) -> CacheView {
        CacheView { nodes: Map::empty().insert(Seq::empty(), None), block_size }
    }

    /// The empty path is known, and with a path each of its prefixes.
    pub open spec fn wf(self) -> bool {
        &&& self.nodes.contains_key(Seq::empty())
        &&& forall|path: Seq<TokenId>, n: int| #[trigger]
            self.nodes.contains_key(path) && 0 <= n <= path.len() ==> self.nodes.contains_key(
                #[trigger] path.take(n),
            )
    }

    /// The block that `path` carries.
    pub open spec fn block_at(self, path: Seq<TokenId>) -> Option<BlockID> {
        if self.nodes.contains_key(path) {
            self.nodes[path]
        } else {
            None
        }
    }

    /// What is known of `path`: nothing, or the block that it carries, if any.
    pub open spec fn node_at(self, path: Seq<TokenId>) -> Option<Option<BlockID>> {
        if self.nodes.contains_key(path) {
            Some(self.nodes[path])
        } else {
            None
        }
    }

    /// Block `b` is carried by some path.
    pub open spec fn holds(self, b: BlockID) -> bool {
        exists|path: Seq<TokenId>| #[trigger] self.block_at(path) == Some(b)
    }

    /// The cache after `tokens` have been entered: every prefix of `tokens` is known, and one that
    /// ends with block `i` carries `blocks[i]`.
    pub open spec fn inserted(self, tokens: Seq<TokenId>, blocks: Seq<BlockID>) -> CacheView {
        CacheView {
            nodes: Map::new(
                |path: Seq<TokenId>| self.nodes.contains_key(path) || path.is_prefix_of(tokens),
                |path: Seq<TokenId>|
                    if path.is_prefix_of(tokens) && path.len() > 0 && path.len() % self.block_size
                        == 0 {
                        Some(blocks[path.len() as int / self.block_size as int - 1])
                    } else {
                        self.block_at(path)
                    },
            ),
            ..self
        }
    }

    /// The cache after the blocks of `blocks` have been forgotten. The paths stay known.
    pub open spec fn evicted(self, blocks: Seq<BlockID>) -> CacheView {
        CacheView {
            nodes: self.nodes.map_values(
                |carried: Option<BlockID>|
                    match carried {
                        Some(b) => if blocks.contains(b) {
                            None
                        } else {
                            carried
                        },
                        None => None,
                    },
            ),
            ..self
        }
    }

    /// Counting from block `i` on: the number of leading whole blocks of `tokens` of which every
    /// one is carried.
    pub open spec fn hits_from(self, tokens: Seq<TokenId>, i: nat) -> nat
        decreases tokens.len() - i,
    {
        if self.block_size > 0 && i < tokens.len() && (i + 1) * self.block_size <= tokens.len()
            && self.block_at(tokens.take((i + 1) * self.block_size as int)) is Some {
            self.hits_from(tokens, i + 1)
        } else {
            i
        }
    }

    /// The number of leading whole blocks of `tokens` of which every one is carried.
    pub open spec fn hits(self, tokens: Seq<TokenId>) -> nat {
        self.hits_from(tokens, 0)
    }

    /// The blocks that hold the leading whole blocks of `tokens`.
    pub open spec fn matched_blocks(self, tokens: Seq<TokenId>) -> Seq<BlockID> {
        Seq::new(
            self.hits(tokens),
            |i: int| self.block_at(tokens.take((i + 1) * self.block_size))->0,
        )
    }

    /// The length of the longest known prefix of `tokens` of at most `limit` tokens.
    pub open spec fn known_prefix(self, tokens: Seq<TokenId>, limit: nat) -> nat
        decreases limit,
    {
        if limit == 0 || self.nodes.contains_key(tokens.take(limit as int)) {
            limit
        } else {
            self.known_prefix(tokens, (limit - 1) as nat)
        }
    }

    /// The length of the longest known prefix of `tokens` that goes no further than the first
    /// block that is not carried.
    pub open spec fn matched_tokens(self, tokens: Seq<TokenId>) -> nat {
        let reach = (self.hits(tokens) + 1) * self.block_size;
        self.known_prefix(
            tokens,
            if reach < tokens.len() {
                reach
            } else {
                tokens.len()
            },
        )
    }
}

impl CacheView {
    /// `blocks` are the blocks that the leading whole blocks of `tokens` carry.
    spec fn carries(self, tokens: Seq<TokenId>, blocks: Seq<BlockID>) -> bool {
        &&& blocks.len() * self.block_size <= tokens.len()
        &&& forall|i: int|
            0 <= i < blocks.len() ==> self.block_at(tokens.take((i + 1) * self.block_size)) == Some(
                #[trigger] blocks[i],
            )
    }

    proof fn lemma_carries_push(self, tokens: Seq<TokenId>, blocks: Seq<BlockID>, b: BlockID)
        requires
            self.carries(tokens, blocks),
            (blocks.len() + 1) * self.block_size <= tokens.len(),
            self.block_at(tokens.take((blocks.len() + 1) * self.block_size as int)) == Some(b),
        ensures
            self.carries(tokens, blocks.push(b)),
    {
    }

    /// The reused blocks cover no more than the tokens there are.
    pub proof fn lemma_covered(self, tokens: Seq<TokenId>)
        ensures
            self.matched_blocks(tokens).len() * self.block_size <= tokens.len(),
            forall|i: int| #![trigger self.matched_blocks(tokens)[i]]
                0 <= i < self.matched_blocks(tokens).len() ==> self.block_at(
                    tokens.take((i + 1) * self.block_size),
                ) == Some(self.matched_blocks(tokens)[i]),
    {
        let h = self.hits(tokens);
        self.lemma_hits_are_hits(tokens, 0);
        if h == 0 {
            assert(0 * self.block_size == 0);
        } else {
            assert(self.hit(tokens, h - 1));
        }
        assert forall|i: int| #![trigger self.matched_blocks(tokens)[i]]
            0 <= i < h implies self.block_at(tokens.take((i + 1) * self.block_size)) == Some(
            self.matched_blocks(tokens)[i],
        ) by {
            assert(self.hit(tokens, i));
        }
    }

    /// What entering tokens keeps.
    pub proof fn lemma_inserted_wf(self, tokens: Seq<TokenId>, blocks: Seq<BlockID>)
        requires
            self.wf(),
            tokens.len() > 0 ==> self.block_size > 0,
            tokens.len() > 0 ==> blocks.len() >= tokens.len() / self.block_size,
        ensures
            self.inserted(tokens, blocks).wf(),
            forall|path: Seq<TokenId>|
                (#[trigger] self.inserted(tokens, blocks).block_at(path)) matches Some(b)
                    ==> blocks.contains(b) || self.block_at(path) == Some(b),
    {
        let post = self.inserted(tokens, blocks);
        assert forall|path: Seq<TokenId>, n: int| #[trigger]
            post.nodes.contains_key(path) && 0 <= n <= path.len() implies post.nodes.contains_key(
            #[trigger] path.take(n),
        ) by {
            if path.is_prefix_of(tokens) {
                assert(path.take(n).is_prefix_of(tokens));
            }
        }
        assert forall|path: Seq<TokenId>|
            (#[trigger] post.block_at(path)) matches Some(b) ==> blocks.contains(b)
                || self.block_at(path) == Some(b) by {
            self.lemma_inserted(tokens, blocks, path);
            if path.is_prefix_of(tokens) && path.len() > 0 && path.len() % self.block_size == 0 {
                let bs = self.block_size as int;
                lemma_whole_blocks(path.len() as int, tokens.len() as int, bs);
                assert(blocks.contains(blocks[path.len() as int / bs - 1]));
            }
        }
    }

    /// What forgetting blocks keeps.
    pub proof fn lemma_evicted(self, blocks: Seq<BlockID>)
        ensures
            self.wf() ==> self.evicted(blocks).wf(),
            forall|path: Seq<TokenId>| #[trigger]
                self.evicted(blocks).block_at(path) == (match self.block_at(path) {
                    Some(b) => if blocks.contains(b) {
                        None
                    } else {
                        Some(b)
                    },
                    None => None,
                }),
    {
    }

    /// Forgetting no block changes nothing.
    pub proof fn lemma_evicted_empty(self)
        ensures
            self.evicted(Seq::empty()) == self,
    {
        assert(self.evicted(Seq::empty()) =~= self);
    }

    /// Forgetting `blocks` and then `b`.
    pub proof fn lemma_evicted_push(self, blocks: Seq<BlockID>, b: BlockID)
        ensures
            self.evicted(blocks).evicted(seq![b]) == self.evicted(blocks.push(b)),
    {
        assert forall|c: BlockID| #[trigger] blocks.push(b).contains(c) <==> blocks.contains(c)
            || seq![b].contains(c) by {
            if blocks.contains(c) {
                let i = blocks.index_of(c);
                assert(blocks.push(b)[i] == c);
            }
            if seq![b].contains(c) {
                assert(blocks.push(b)[blocks.len() as int] == c);
            }
            if blocks.push(b).contains(c) {
                let i = blocks.push(b).index_of(c);
                if i < blocks.len() {
                    assert(blocks[i] == c);
                } else {
                    assert(seq![b][0] == c);
                }
            }
        }
        assert(self.evicted(blocks).evicted(seq![b]) =~= self.evicted(blocks.push(b)));
    }

    /// Block `i` of `tokens` is whole and carried.
    pub open spec fn hit(self, tokens: Seq<TokenId>, i: int) -> bool {
        &&& self.block_size > 0
        &&& (i + 1) * self.block_size <= tokens.len()
        &&& self.block_at(tokens.take((i + 1) * self.block_size)) is Some
    }

    /// `k` is the number of hits if the first `k` blocks are hits and the next is not.
    pub proof fn lemma_hits(self, tokens: Seq<TokenId>, i: nat, k: nat)
        requires
            i <= k,
            forall|j: int| i <= j < k ==> #[trigger] self.hit(tokens, j),
            !self.hit(tokens, k as int),
        ensures
            self.hits_from(tokens, i) == k,
        decreases k - i,
    {
        if i < k {
            assert(self.hit(tokens, i as int));
            assert(i < (i + 1) * self.block_size) by (nonlinear_arith)
                requires
                    self.block_size > 0,
            ;
            self.lemma_hits(tokens, i + 1, k);
        }
    }

    /// What the number of hits says: the first `hits` blocks are hits and the next is not.
    pub proof fn lemma_hits_are_hits(self, tokens: Seq<TokenId>, i: nat)
        ensures
            i <= self.hits_from(tokens, i),
            forall|j: int| i <= j < self.hits_from(tokens, i) ==> #[trigger] self.hit(tokens, j),
            !self.hit(tokens, self.hits_from(tokens, i) as int),
        decreases tokens.len() - i,
    {
        if self.hit(tokens, i as int) {
            assert(i < (i + 1) * self.block_size) by (nonlinear_arith)
                requires
                    self.block_size > 0,
            ;
            self.lemma_hits_are_hits(tokens, i + 1);
        }
    }

    /// The longest known prefix is the one known prefix with no longer one up to `limit`.
    proof fn lemma_known_prefix(self, tokens: Seq<TokenId>, limit: nat, m: nat)
        requires
            m <= limit,
            self.nodes.contains_key(tokens.take(m as int)),
            forall|d: int|
                m < d <= limit ==> !self.nodes.contains_key(#[trigger] tokens.take(d)),
        ensures
            self.known_prefix(tokens, limit) == m,
        decreases limit,
    {
        if m < limit {
            assert(!self.nodes.contains_key(tokens.take(limit as int)));
            self.lemma_known_prefix(tokens, (limit - 1) as nat, m);
        }
    }

    /// Where a walk down the trie ends.
    proof fn lemma_matched(self, tokens: Seq<TokenId>, blocks: Seq<BlockID>, m: nat)
        requires
            self.wf(),
            self.carries(tokens, blocks),
            self.nodes.contains_key(tokens.take(m as int)),
            m <= tokens.len(),
            self.block_size == 0 ==> m == 0 && blocks.len() == 0,
            self.block_size > 0 ==> blocks.len() * self.block_size <= m <= (blocks.len() + 1)
                * self.block_size,
            if self.block_size > 0 && m == (blocks.len() + 1) * self.block_size {
                self.block_at(tokens.take(m as int)) is None
            } else {
                m < tokens.len() ==> !self.nodes.contains_key(tokens.take(m as int + 1))
            },
        ensures
            self.matched_tokens(tokens) == m,
            self.matched_blocks(tokens) == blocks,
    {
        let k = blocks.len();
        let bs = self.block_size;
        let reach = (k + 1) * bs;
        if bs > 0 {
            assert forall|j: int| 0 <= j < k implies #[trigger] self.hit(tokens, j) by {
                assert(self.block_at(tokens.take((j + 1) * bs)) == Some(blocks[j]));
                assert((j + 1) * bs <= k * bs) by (nonlinear_arith)
                    requires
                        j + 1 <= k,
                        bs > 0,
                ;
            }
        }
        assert forall|d: int| m < d <= tokens.len() && d <= reach implies !self.nodes.contains_key(
            #[trigger] tokens.take(d),
        ) by {
            if self.nodes.contains_key(tokens.take(d)) {
                assert(tokens.take(d).take(m as int + 1) =~= tokens.take(m as int + 1));
                assert(self.nodes.contains_key(tokens.take(d).take(m as int + 1)));
            }
        }
        self.lemma_hits(tokens, 0, k);
        let limit = if reach < tokens.len() {
            reach
        } else {
            tokens.len()
        };
        self.lemma_known_prefix(tokens, limit, m);
        assert(self.matched_blocks(tokens) =~= blocks);
    }

    /// What is known of `path` after an insertion.
    proof fn lemma_inserted(
        self,
        tokens: Seq<TokenId>,
        blocks: Seq<BlockID>,
        path: Seq<TokenId>,
    )
        ensures
            self.inserted(tokens, blocks).node_at(path) == if path.is_prefix_of(tokens) {
                if path.len() > 0 && path.len() % self.block_size == 0 {
                    Some(Some(blocks[path.len() as int / self.block_size as int - 1]))
                } else {
                    Some(self.block_at(path))
                }
            } else {
                self.node_at(path)
            },
    {
    }
}

/// Where `m` lies within blocks of `block_size`, given that it lies in block `k` or right behind
/// it.
proof fn lemma_boundary(m: int, k: int, block_size: int)
    requires
        block_size > 0,
        0 <= k,
        k * block_size <= m <= (k + 1) * block_size,
    ensures
        (k + 1) * block_size == k * block_size + block_size,
        m % block_size == 0 <==> m == k * block_size || m == (k + 1) * block_size,
{
    assert((k + 1) * block_size == k * block_size + block_size) by (nonlinear_arith);
    if m < (k + 1) * block_size {
        vstd::arithmetic::div_mod::lemma_fundamental_div_mod_converse(
            m,
            block_size,
            k,
            m - k * block_size,
        );
    } else {
        vstd::arithmetic::div_mod::lemma_fundamental_div_mod_converse(m, block_size, k + 1, 0);
    }
}

/// A block boundary at or before `n` lies behind a block that `n` tokens fill.
proof fn lemma_whole_blocks(k: int, n: int, block_size: int)
    requires
        0 < k <= n,
        block_size > 0,
        k % block_size == 0,
    ensures
        1 <= k / block_size <= n / block_size,
{
    vstd::arithmetic::div_mod::lemma_div_is_ordered(k, n, block_size);
    vstd::arithmetic::div_mod::lemma_fundamental_div_mod(k, block_size);
    if k / block_size <= 0 {
        assert(block_size * (k / block_size) <= 0) by (nonlinear_arith)
            requires
                block_size > 0,
                k / block_size <= 0,
        ;
    }
}

/// A node of the trie.
pub struct TrieNode {
    pub children: HashMap<i32, TrieNode>,
    block_id: Option<BlockID>,
}

impl TrieNode {
    /// The node that `path` leads to: `None` if there is none, else the block that it carries.
    pub closed spec fn lookup(self, path: Seq<TokenId>) -> Option<Option<BlockID>>
        decreases path.len(),
    {
        if path.len() == 0 {
            Some(self.block_id)
        } else if self.children@.contains_key(path.first().0) {
            self.children@[path.first().0].lookup(path.drop_first())
        } else {
            None
        }
    }

    fn new() -> (node: Self)
        ensures
            forall|path: Seq<TokenId>| #[trigger]
                node.lookup(path) == if path.len() == 0 {
                    Some(None::<BlockID>)
                } else {
                    None
                },
    {
        TrieNode { children: HashMap::new(), block_id: None }
    }

    /// With a path there are its prefixes.
    pub proof fn lemma_prefix_closed(self, path: Seq<TokenId>, n: int)
        requires
            self.lookup(path) is Some,
            0 <= n <= path.len(),
        ensures
            self.lookup(path.take(n)) is Some,
        decreases path.len(),
    {
        if n > 0 {
            assert(path.take(n).first() == path.first());
            assert(path.take(n).drop_first() =~= path.drop_first().take(n - 1));
            self.children@[path.first().0].lemma_prefix_closed(path.drop_first(), n - 1);
        }
    }

    /// Forgets that this node or one below it carries `block_id`.
    fn evict_recursive(&mut self, block_id: BlockID)
        ensures
            forall|path: Seq<TokenId>| #[trigger]
                final(self).lookup(path) == (if old(self).lookup(path) == Some(Some(block_id)) {
                    Some(None)
                } else {
                    old(self).lookup(path)
                }),
        decreases *old(self),
    {
        if let Some(carried) = self.block_id {
            if carried == block_id {
                self.block_id = None;
            }
        }
        let tokens = keys_of(&self.children);
        let n: usize = tokens.len();
        for i in 0..n
            invariant
                n == tokens@.len(),
                tokens@.no_duplicates(),
                tokens@.to_set() == old(self).children@.dom(),
                self.block_id == (if old(self).block_id == Some(block_id) {
                    None
                } else {
                    old(self).block_id
                }),
                self.children@.dom() == old(self).children@.dom(),
                forall|j: int|
                    i <= j < n ==> self.children@[tokens@[j]] == old(self).children@[#[trigger] tokens@[j]],
                forall|j: int, path: Seq<TokenId>|
                    0 <= j < i ==> #[trigger] self.children@[tokens@[j]].lookup(path) == (
                    if old(self).children@[tokens@[j]].lookup(path) == Some(Some(block_id)) {
                        Some(None)
                    } else {
                        old(self).children@[tokens@[j]].lookup(path)
                    }),
        {
            let token: i32 = tokens[i];
            proof {
                assert(tokens@.to_set().contains(token));
                assert(self.children@[tokens@[i as int]] == old(self).children@[token]);
            }
            let mut child = self.children.remove(&token).unwrap();
            child.evict_recursive(block_id);
            self.children.insert(token, child);
            assert(self.children@.dom() =~= old(self).children@.dom());
        }
        proof {
            assert forall|path: Seq<TokenId>| #[trigger]
                self.lookup(path) == (if old(self).lookup(path) == Some(Some(block_id)) {
                    Some(None)
                } else {
                    old(self).lookup(path)
                }) by {
                if path.len() > 0 {
                    let token = path.first().0;
                    if old(self).children@.contains_key(token) {
                        assert(tokens@.to_set().contains(token));
                        let j = tokens@.index_of(token);
                        assert(self.children@[tokens@[j]].lookup(path.drop_first()) == (
                        if old(self).children@[tokens@[j]].lookup(path.drop_first()) == Some(
                            Some(block_id),
                        ) {
                            Some(None)
                        } else {
                            old(self).children@[tokens@[j]].lookup(path.drop_first())
                        }));
                    }
                }
            }
        }
    }
}

impl View for TrieNode {
    type V = Map<Seq<TokenId>, Option<BlockID>>;

    /// The paths from this node and the block that each carries.
    open spec fn view(&self) -> Map<Seq<TokenId>, Option<BlockID>> {
        Map::new(
            |path: Seq<TokenId>| self.lookup(path) is Some,
            |path: Seq<TokenId>| self.lookup(path)->0,
        )
    }
}

/// A prefix cache.
pub struct PrefixCache {
    pub root: TrieNode,
    pub block_size: usize,
}

impl View for PrefixCache {
    type V = CacheView;

    open spec fn view(&self) -> CacheView {
        CacheView { nodes: self.root@, block_size: self.block_size as nat }
    }
}

impl PrefixCache {
    /// Every cache knows the empty path and, with a path, its prefixes.
    pub proof fn lemma_wf(self)
        ensures
            self@.wf(),
    {
        assert(self.root.lookup(Seq::empty()) is Some);
        assert forall|path: Seq<TokenId>, n: int| #[trigger]
            self@.nodes.contains_key(path) && 0 <= n <= path.len() implies self@.nodes.contains_key(
            #[trigger] path.take(n),
        ) by {
            self.root.lemma_prefix_closed(path, n);
        }
    }

    /// A cache is known by its lookups.
    proof fn lemma_same_nodes(self, goal: CacheView)
        requires
            self.block_size == goal.block_size,
            forall|path: Seq<TokenId>| #[trigger] self.root.lookup(path) == goal.node_at(path),
        ensures
            self@ == goal,
    {
        assert forall|path: Seq<TokenId>| #[trigger]
            self@.nodes.contains_key(path) <==> goal.nodes.contains_key(path) by {
            assert(self.root.lookup(path) == goal.node_at(path));
        }
        assert forall|path: Seq<TokenId>| #[trigger]
            self@.nodes.contains_key(path) implies self@.nodes[path] == goal.nodes[path] by {
            assert(self.root.lookup(path) == goal.node_at(path));
        }
        assert(self@ =~= goal);
    }

    /// A cache without blocks.
    pub fn new(block_size: usize) -> (cache: Self)
        ensures
            cache@ == CacheView::empty(block_size as nat),
            cache@.wf(),
    {
        let cache = PrefixCache { root: TrieNode::new(), block_size };
        proof {
            assert forall|path: Seq<TokenId>| cache@.nodes.contains_key(path) implies path =~= Seq::empty() by {
                assert(cache.root.lookup(path) is Some);
            }
            assert(cache@ =~= CacheView::empty(block_size as nat));
        }
        cache
    }

    /// Enters `tokens`, whose block `i` is `blocks[i]`. Only whole blocks are remembered.
    pub fn insert(&mut self, tokens: &[TokenId], blocks: &[BlockID])
        requires
            tokens@.len() > 0 ==> old(self).block_size > 0,
            tokens@.len() > 0 ==> blocks@.len() >= tokens@.len() / old(self)@.block_size,
        ensures
            final(self)@ == old(self)@.inserted(tokens@, blocks@),
    {
        let block_size: usize = self.block_size;
        let mut root = TrieNode::new();
        std::mem::swap(&mut root, &mut self.root);
        let ghost before = root;
        let ghost goal = old(self)@.inserted(tokens@, blocks@);
        let n: usize = tokens.len();
        let mut current = &mut root;
        proof {
            assert forall|path: Seq<TokenId>| #[trigger] current.lookup(path) == if path.len() == 0 {
                goal.node_at(tokens@.take(0))
            } else {
                before.lookup(tokens@.take(0) + path)
            } by {
                old(self)@.lemma_inserted(tokens@, blocks@, tokens@.take(0));
                assert(tokens@.take(0) =~= Seq::empty());
                assert(tokens@.take(0) + path =~= path);
            }
            assert forall|path: Seq<TokenId>| path.skip(0) == path by {
                assert(path.skip(0) =~= path);
            }
        }
        for i in 0..n
            invariant
                n == tokens@.len(),
                block_size == old(self).block_size,
                n > 0 ==> block_size > 0,
                n > 0 ==> blocks@.len() >= n as nat / block_size as nat,
                before == old(self).root,
                goal == old(self)@.inserted(tokens@, blocks@),
                forall|path: Seq<TokenId>| #[trigger]
                    after_borrow(root).lookup(path) == if tokens@.take(i as int).is_prefix_of(path) {
                        final(current).lookup(path.skip(i as int))
                    } else {
                        goal.node_at(path)
                    },
                forall|path: Seq<TokenId>| #[trigger]
                    current.lookup(path) == if path.len() == 0 {
                        goal.node_at(tokens@.take(i as int))
                    } else {
                        before.lookup(tokens@.take(i as int) + path)
                    },
        {
            let ghost upper = *current;
            current = current.children.entry(tokens[i].0).or_insert(TrieNode::new());
            let ghost lower = *current;
            if (i + 1) % block_size == 0 {
                proof {
                    lemma_whole_blocks(i + 1, n as int, block_size as int);
                }
                current.block_id = Some(blocks[(i + 1) / block_size - 1]);
            }
            proof {
                let t = tokens@[i as int];
                let here = tokens@.take(i as int);
                let there = tokens@.take(i + 1);
                assert(there =~= here.push(t));
                assert forall|path: Seq<TokenId>| #[trigger] current.lookup(path) == if path.len() == 0 {
                    goal.node_at(there)
                } else {
                    before.lookup(there + path)
                } by {
                    let down = seq![t] + path;
                    assert(down.drop_first() =~= path);
                    assert(here + down =~= there + path);
                    assert(upper.lookup(down) == before.lookup(there + path));
                    assert(lower.lookup(path) == if upper.children@.contains_key(t.0) {
                        upper.lookup(down)
                    } else if path.len() == 0 {
                        Some(None::<BlockID>)
                    } else {
                        None
                    });
                    if path.len() == 0 {
                        assert(there + path =~= there);
                        old(self)@.lemma_inserted(tokens@, blocks@, there);
                        assert(there.is_prefix_of(tokens@));
                    } else {
                        assert(current.lookup(path) == lower.lookup(path));
                    }
                }
                assert forall|path: Seq<TokenId>| #[trigger]
                    after_borrow(root).lookup(path) == if there.is_prefix_of(path) {
                        final(current).lookup(path.skip(i + 1))
                    } else {
                        goal.node_at(path)
                    } by {
                    if here.is_prefix_of(path) {
                        let rest = path.skip(i as int);
                        assert(here + rest =~= path);
                        if there.is_prefix_of(path) {
                            assert(path[i as int] == there[i as int]);
                            assert(rest.first() == t);
                            assert(rest.drop_first() =~= path.skip(i + 1));
                        } else {
                            if rest.len() > 0 && rest.first() == t {
                                assert(there =~= path.take(i + 1));
                                assert(false);
                            }
                            if rest.len() == 0 {
                                assert(path =~= here);
                            } else {
                                assert(!path.is_prefix_of(tokens@)) by {
                                    if path.is_prefix_of(tokens@) {
                                        assert(path[i as int] == tokens@[i as int]);
                                    }
                                }
                                old(self)@.lemma_inserted(tokens@, blocks@, path);
                                assert(rest.first().0 != t.0);
                                assert(upper.lookup(rest) == before.lookup(path));
                            }
                        }
                    } else {
                        assert(!there.is_prefix_of(path)) by {
                            if there.is_prefix_of(path) {
                                assert(here =~= path.take(i as int));
                            }
                        }
                    }
                }
            }
        }
        proof {
            assert(tokens@.take(n as int) =~= tokens@);
        }
        self.root = root;
        proof {
            assert forall|path: Seq<TokenId>| #[trigger] self.root.lookup(path) == goal.node_at(path) by {
                if tokens@.is_prefix_of(path) {
                    let rest = path.skip(n as int);
                    assert(tokens@ + rest =~= path);
                    if rest.len() == 0 {
                        assert(path =~= tokens@);
                    } else {
                        assert(!path.is_prefix_of(tokens@));
                        old(self)@.lemma_inserted(tokens@, blocks@, path);
                    }
                }
            }
            self.lemma_same_nodes(goal);
        }
    }

    /// The number of leading tokens that the cache knows, up to the first block that it does not
    /// hold, and the blocks that it holds of them.
    pub fn match_prefix(&self, tokens: &[TokenId]) -> (matched: (usize, Vec<BlockID>))
        requires
            self.block_size == 0 ==> (tokens@.len() == 0 || !self@.nodes.contains_key(
                tokens@.take(1),
            )),
        ensures
            matched.0 == self@.matched_tokens(tokens@),
            matched.1@ == self@.matched_blocks(tokens@),
    {
        let mut matched_tokens: usize = 0;
        let mut matched_blocks: Vec<BlockID> = Vec::new();
        let mut current_node = &self.root;
        let n: usize = tokens.len();
        let ghost bs = self.block_size as nat;
        proof {
            self.lemma_wf();
            assert forall|path: Seq<TokenId>| #[trigger] current_node.lookup(path)
                == self.root.lookup(tokens@.take(0) + path) by {
                assert(tokens@.take(0) + path =~= path);
            }
            assert(tokens@.take(0) =~= Seq::empty());
            assert((0 + 1) * bs == bs && 0 * bs == 0) by (nonlinear_arith);
        }
        while matched_tokens < n
            invariant_except_break
                bs > 0 ==> matched_tokens < (matched_blocks@.len() + 1) * bs,
                forall|path: Seq<TokenId>| #[trigger]
                    current_node.lookup(path) == self.root.lookup(
                        tokens@.take(matched_tokens as int) + path,
                    ),
            invariant
                n == tokens@.len(),
                matched_tokens <= n,
                bs == self.block_size,
                self@.wf(),
                bs == 0 ==> (n == 0 || !self@.nodes.contains_key(tokens@.take(1))),
                bs == 0 ==> matched_tokens == 0 && matched_blocks@.len() == 0,
                matched_blocks@.len() * bs <= matched_tokens,
                bs > 0 ==> matched_tokens <= (matched_blocks@.len() + 1) * bs,
                self@.nodes.contains_key(tokens@.take(matched_tokens as int)),
                self@.carries(tokens@, matched_blocks@),
            ensures
                if bs > 0 && matched_tokens == (matched_blocks@.len() + 1) * bs {
                    self@.block_at(tokens@.take(matched_tokens as int)) is None
                } else {
                    matched_tokens < n ==> !self@.nodes.contains_key(
                        tokens@.take(matched_tokens + 1),
                    )
                },
            decreases n - matched_tokens,
        {
            let ghost k = matched_blocks@.len();
            let ghost here = tokens@.take(matched_tokens as int);
            let ghost t = tokens@[matched_tokens as int];
            let ghost there = tokens@.take(matched_tokens + 1);
            proof {
                assert(there =~= here.push(t));
                assert(here + seq![t] =~= there);
                assert(seq![t].drop_first() =~= Seq::<TokenId>::empty());
                assert(current_node.lookup(seq![t]) == self.root.lookup(there));
            }
            match current_node.children.get(&tokens[matched_tokens].0) {
                Some(child) => {
                    let ghost upper = *current_node;
                    current_node = child;
                    matched_tokens += 1;
                    proof {
                        assert(self@.nodes.contains_key(there));
                        assert(bs > 0);
                        assert forall|path: Seq<TokenId>| #[trigger] current_node.lookup(path)
                            == self.root.lookup(there + path) by {
                            let down = seq![t] + path;
                            assert(down.drop_first() =~= path);
                            assert(here + down =~= there + path);
                            assert(upper.lookup(down) == self.root.lookup(here + down));
                        }
                        lemma_boundary(matched_tokens as int, k as int, bs as int);
                    }
                    if matched_tokens % self.block_size == 0 {
                        proof {
                            assert(current_node.lookup(Seq::empty()) == Some(current_node.block_id));
                            assert(there + Seq::<TokenId>::empty() =~= there);
                            assert(self@.block_at(there) == current_node.block_id);
                            assert((k + 1 + 1) * bs == (k + 1) * bs + bs) by (nonlinear_arith);
                        }
                        if let Some(id) = current_node.block_id {
                            proof {
                                self@.lemma_carries_push(tokens@, matched_blocks@, id);
                            }
                            matched_blocks.push(id);
                        } else {
                            break;
                        }
                    }
                },
                None => {
                    assert(!self@.nodes.contains_key(there));
                    break;
                },
            }
        }
        proof {
            self@.lemma_matched(tokens@, matched_blocks@, matched_tokens as nat);
        }
        (matched_tokens, matched_blocks)
    }

    /// Forgets that any path carries `block_id`. The paths stay known.
    pub fn evict(&mut self, block_id: BlockID)
        ensures
            final(self)@ == old(self)@.evicted(seq![block_id]),
    {
        self.root.evict_recursive(block_id);
        proof {
            let goal = old(self)@.evicted(seq![block_id]);
            assert forall|path: Seq<TokenId>| #[trigger] self.root.lookup(path) == goal.node_at(path) by {
                assert(old(self).root.lookup(path) == old(self)@.node_at(path));
                assert(seq![block_id].contains(block_id)) by {
                    assert(seq![block_id][0] == block_id);
                }
            }
            self.lemma_same_nodes(goal);
        }
    }
}

} // verus!
