//! Which block to give up when the pool is exhausted.
use crate::block_pool::{BlockID, BlockPool, PoolView};
use linked_hash_map::LinkedHashMap;
use vstd::prelude::*;

verus! {

/// `linked_hash_map::LinkedHashMap`, as an opaque type.
#[verifier::external_type_specification]
#[verifier::external_body]
#[verifier::reject_recursive_types(K)]
#[verifier::reject_recursive_types(V)]
#[verifier::reject_recursive_types(S)]
pub struct ExLinkedHashMap<K, V, S>(LinkedHashMap<K, V, S>);

/// The keys of a linked hash map, in the order in which the map lists them.
pub uninterp spec fn key_order(map: LinkedHashMap<u32, ()>) -> Seq<u32>;

/// `LinkedHashMap::new`: a map without keys.
#[verifier::external_body]
fn map_new() -> (map: LinkedHashMap<u32, ()>)
    ensures
        key_order(map) == Seq::<u32>::empty(),
{
    LinkedHashMap::new()
}

/// `LinkedHashMap::insert`: the key stands last in the order afterwards, whether or not it was
/// there before, and the other keys keep their order. No key is listed twice. The old value comes
/// back if there was one.
#[verifier::external_body]
fn map_insert(map: &mut LinkedHashMap<u32, ()>, key: u32) -> (old_value: Option<()>)
    ensures
        key_order(*final(map)) == crate::lists::without(key_order(*old(map)), key).push(key),
        key_order(*final(map)).no_duplicates(),
        old_value is Some <==> key_order(*old(map)).contains(key),
{
    map.insert(key, ())
}

/// `LinkedHashMap::remove`: the key is gone and the other keys keep their order. No key is listed
/// twice. The old value comes back if there was one.
#[verifier::external_body]
fn map_remove(map: &mut LinkedHashMap<u32, ()>, key: u32) -> (old_value: Option<()>)
    ensures
        key_order(*final(map)) == crate::lists::without(key_order(*old(map)), key),
        key_order(*final(map)).no_duplicates(),
        old_value is Some <==> key_order(*old(map)).contains(key),
{
    map.remove(&key)
}

/// `LinkedHashMap::keys`: the keys, in order, each once.
#[verifier::external_body]
fn map_keys(map: &LinkedHashMap<u32, ()>) -> (keys: Vec<u32>)
    ensures
        keys@ == key_order(*map),
        keys@.no_duplicates(),
{
    map.keys().copied().collect()
}

/// The first block of `order` that has exactly one reference.
pub open spec fn first_exclusive(order: Seq<BlockID>, pool: PoolView) -> Option<BlockID>
    decreases order.len(),
{
    if order.len() == 0 {
        None
    } else if pool.count(order.first()) == 1 {
        Some(order.first())
    } else {
        first_exclusive(order.drop_first(), pool)
    }
}

/// What `first_exclusive` finds: a block of one reference with none such before it, or nothing
/// if there is no such block.
pub proof fn lemma_first_exclusive(order: Seq<BlockID>, pool: PoolView)
    ensures
        first_exclusive(order, pool) is None <==> forall|i: int|
            0 <= i < order.len() ==> pool.count(#[trigger] order[i]) != 1,
        first_exclusive(order, pool) matches Some(b) ==> pool.count(b) == 1 && exists|i: int|
            #![trigger order[i]]
            0 <= i < order.len() && order[i] == b && forall|j: int|
                0 <= j < i ==> pool.count(#[trigger] order[j]) != 1,
    decreases order.len(),
{
    if order.len() > 0 && pool.count(order.first()) != 1 {
        let rest = order.drop_first();
        lemma_first_exclusive(rest, pool);
        assert(forall|i: int| 0 <= i < rest.len() ==> #[trigger] rest[i] == order[i + 1]);
        assert(forall|i: int| 1 <= i < order.len() ==> #[trigger] order[i] == rest[i - 1]);
        match first_exclusive(rest, pool) {
            None => {},
            Some(b) => {
                let i = choose|i: int|
                    #![trigger rest[i]]
                    0 <= i < rest.len() && rest[i] == b && forall|j: int|
                        0 <= j < i ==> pool.count(#[trigger] rest[j]) != 1;
                assert(order[i + 1] == b);
                assert forall|j: int| 0 <= j < i + 1 implies pool.count(
                    #[trigger] order[j],
                ) != 1 by {
                    if j > 0 {
                        assert(rest[j - 1] == order[j]);
                    }
                }
            },
        }
    } else if order.len() > 0 {
        assert(order[0] == order.first());
    }
}

/// Skipping a block that does not qualify.
proof fn lemma_first_exclusive_step(order: Seq<BlockID>, pool: PoolView, i: int)
    requires
        0 <= i < order.len(),
    ensures
        first_exclusive(order.skip(i), pool) == if pool.count(order[i]) == 1 {
            Some(order[i])
        } else {
            first_exclusive(order.skip(i + 1), pool)
        },
{
    assert(order.skip(i).first() == order[i]);
    assert(order.skip(i).drop_first() =~= order.skip(i + 1));
}

/// A way to choose the block to give up.
pub trait EvictionPolicy {
    /// The blocks that the policy looks at.
    spec fn candidates(&self) -> Seq<BlockID>;

    fn select_victim(&mut self, pool: &BlockPool) -> Option<BlockID>
        requires
            pool@.has_all(old(self).candidates()),
    ;
}

/// Chooses the least recently accessed block.
pub struct LRUEviction {
    /// The tracked block indices, least recently accessed first.
    pub blocks_map: LinkedHashMap<u32, ()>,
}

/// Block indices as blocks.
pub open spec fn as_blocks(indices: Seq<u32>) -> Seq<BlockID> {
    indices.map_values(|k: u32| BlockID(k))
}

proof fn lemma_as_blocks_without(indices: Seq<u32>, k: u32)
    ensures
        as_blocks(crate::lists::without(indices, k)) == crate::lists::without(
            as_blocks(indices),
            BlockID(k),
        ),
    decreases indices.len(),
{
    reveal(Seq::filter);
    if indices.len() > 0 {
        let r = indices.drop_last();
        lemma_as_blocks_without(r, k);
        assert(as_blocks(indices).drop_last() =~= as_blocks(r));
        assert(as_blocks(indices) =~= as_blocks(r).push(BlockID(indices.last())));
        let w = crate::lists::without(r, k);
        assert(as_blocks(w.push(indices.last())) =~= as_blocks(w).push(BlockID(indices.last())));
    } else {
        assert(as_blocks(indices) =~= Seq::<BlockID>::empty());
    }
}

impl View for LRUEviction {
    type V = Seq<BlockID>;

    /// The tracked blocks, least recently accessed first.
    open spec fn view(&self) -> Seq<BlockID> {
        as_blocks(key_order(self.blocks_map))
    }
}

impl LRUEviction {
    /// A policy that tracks no block yet.
    pub fn new() -> (policy: LRUEviction)
        ensures
            policy@ == Seq::<BlockID>::empty(),
    {
        let policy = LRUEviction { blocks_map: map_new() };
        assert(policy@ =~= Seq::<BlockID>::empty());
        policy
    }

    /// Records an access: the block becomes the most recently accessed one.
    pub fn on_access(&mut self, block_id: &BlockID)
        ensures
            final(self)@ == crate::lists::touch(old(self)@, *block_id),
            final(self)@.no_duplicates(),
    {
        map_remove(&mut self.blocks_map, block_id.0);
        proof {
            let before = key_order(old(self).blocks_map);
            let rest = crate::lists::without(before, block_id.0);
            lemma_as_blocks_without(before, block_id.0);
            crate::lists::lemma_without(before, block_id.0);
            assert(!rest.contains(block_id.0));
            crate::lists::lemma_without_absent(rest, block_id.0);
            assert(as_blocks(rest.push(block_id.0)) =~= as_blocks(rest).push(*block_id));
        }
        map_insert(&mut self.blocks_map, block_id.0);
    }

    /// Stops tracking a block.
    pub fn on_free(&mut self, block_id: &BlockID)
        ensures
            final(self)@ == crate::lists::without(old(self)@, *block_id),
            final(self)@.no_duplicates(),
    {
        proof {
            lemma_as_blocks_without(key_order(self.blocks_map), block_id.0);
        }
        map_remove(&mut self.blocks_map, block_id.0);
    }
}

impl EvictionPolicy for LRUEviction {
    open spec fn candidates(&self) -> Seq<BlockID> {
        self@
    }

    /// The least recently accessed block that has exactly one reference.
    fn select_victim(&mut self, pool: &BlockPool) -> (victim: Option<BlockID>)
        ensures
            victim == first_exclusive(old(self)@, pool@),
            final(self)@ == old(self)@,
            final(self)@.no_duplicates(),
    {
        let keys = map_keys(&self.blocks_map);
        let n: usize = keys.len();
        assert(self@.skip(0) =~= self@);
        for i in 0..n
            invariant
                n == keys@.len(),
                keys@.no_duplicates(),
                self@ == old(self)@,
                self@ == as_blocks(keys@),
                pool@.has_all(self@),
                first_exclusive(self@, pool@) == first_exclusive(self@.skip(i as int), pool@),
        {
            let block = BlockID(keys[i]);
            assert(self@[i as int] == block);
            proof {
                lemma_first_exclusive_step(self@, pool@, i as int);
            }
            let ref_count: u32 = pool.get_ref_count(block);
            if ref_count == 1 {
                return Some(block);
            }
        }
        None
    }
}

} // verus!
