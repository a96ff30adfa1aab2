//! Walking the keys of a hash map.

use std::collections::HashMap;
use vstd::prelude::*;
use vstd::std_specs::iter::IteratorSpec;

verus! {

broadcast use vstd::std_specs::hash::group_hash_axioms;

/// The keys of `m`, each once, in the map's own order.
pub(crate) fn keys_of<V>(m: &HashMap<u64, V>) -> (keys: Vec<u64>)
    ensures
        keys@.to_set() == m@.dom(),
        keys@.no_duplicates(),
        keys@.len() == m@.dom().len(),
{
    let mut keys: Vec<u64> = Vec::new();
    let ghost all = vstd::std_specs::hash::spec_keys_iter(m).remaining();
    for k in it: m.keys()
        invariant
            it.seq() == all,
            all.unref().to_set() == m@.dom(),
            all.no_duplicates(),
            all.len() == m@.dom().len(),
            keys@ == all.take(it.index() as int).unref(),
    {
        keys.push(*k);
        proof {
            assert(all.take(it.index() + 1).unref() =~= all.take(it.index() as int).unref().push(
                *all[it.index() as int],
            ));
        }
    }
    proof {
        assert(all.take(all.len() as int) =~= all);
        assert forall|i: int, j: int| 0 <= i < j < keys@.len() implies keys@[i] != keys@[j] by {
            assert(all[i] != all[j]);
        }
    }
    keys
}

} // verus!
