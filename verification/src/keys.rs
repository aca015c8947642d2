//! Walking a hash map by its keys.
use std::collections::HashMap;
use vstd::prelude::*;

verus! {

/// The keys of a map, each once, in no particular order.
pub(crate) fn keys_of<V>(map: &HashMap<i32, V>) -> (keys: Vec<i32>)
    ensures
        keys@.no_duplicates(),
        keys@.to_set() == map@.dom(),
{
    let mut keys: Vec<i32> = Vec::new();
    for key in iter: map.keys()
        invariant
            keys@.len() == iter.index(),
            forall|j: int| 0 <= j < keys@.len() ==> keys@[j] == *iter.seq()[j],
            iter.seq().no_duplicates(),
            iter.seq().unref().to_set() == map@.dom(),
            iter.index() == iter.seq().len() ==> keys@ == iter.seq().unref(),
    {
        keys.push(*key);
    }
    assert(keys@.to_set() =~= map@.dom());
    keys
}

} // verus!
