//! Helpers over `HashMap`s keyed by plain values.

use std::collections::HashMap;

use vstd::prelude::*;
use vstd::std_specs::hash::obeys_key_model;

verus! {

broadcast use vstd::std_specs::hash::group_hash_axioms;

/// Every key of `m`, each once, in no particular order.
pub fn keys_of<K: Copy, V>(m: &HashMap<K, V>) -> (r: Vec<K>)
    requires
        obeys_key_model::<K>(),
    ensures
        r@.to_set() == m@.dom(),
        r@.no_duplicates(),
{
    let mut r: Vec<K> = Vec::new();
    for k in it: m.keys()
        invariant
            r@ == it.seq().take(it.index() as int).map_values(|x: &K| *x),
            it.seq().unref().to_set() == m@.dom(),
            it.index() <= it.seq().len(),
        ensures
            r@ =~= it.seq().unref(),
            it.seq().unref().to_set() == m@.dom(),
    {
        r.push(*k);
    }
    r
}

} // verus!
