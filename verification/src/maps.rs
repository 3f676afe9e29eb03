//! Walking the keys of a map keyed by an integer.

use std::collections::HashMap;
use vstd::prelude::*;

verus! {

broadcast use vstd::std_specs::hash::group_hash_axioms;

/// The keys of `m`, each once, in the order the map hands them out.
pub fn keys_of<T>(m: &HashMap<u32, T>) -> (r: Vec<u32>)
    ensures
        r@.to_set() == m@.dom(),
        r@.no_duplicates(),
        r@.len() == m@.dom().len(),
{
    let mut out: Vec<u32> = Vec::new();
    for k in it: m.keys()
        invariant
            out@.len() == it.index(),
            forall|i: int| 0 <= i < it.index() ==> out@[i] == *it.seq()[i],
            it.seq().unref().to_set() == m@.dom(),
            it.seq().no_duplicates(),
            it.seq().len() == m@.dom().len(),
            out@.len() == it.seq().len() ==> out@ == it.seq().unref(),
    {
        out.push(*k);
        assert(out@.len() == it.seq().len() ==> out@ =~= it.seq().unref());
    }
    proof {
        if out@.len() == 0 {
            assert(m@.dom() =~= Set::<u32>::empty());
            assert(out@.to_set() =~= Set::<u32>::empty());
        }
    }
    out
}

/// The keys of `m`, each once, in the order the map hands them out.
pub fn keys_of_u128<T>(m: &HashMap<u128, T>) -> (r: Vec<u128>)
    ensures
        r@.to_set() == m@.dom(),
        r@.no_duplicates(),
        r@.len() == m@.dom().len(),
{
    let mut out: Vec<u128> = Vec::new();
    for k in it: m.keys()
        invariant
            out@.len() == it.index(),
            forall|i: int| 0 <= i < it.index() ==> out@[i] == *it.seq()[i],
            it.seq().unref().to_set() == m@.dom(),
            it.seq().no_duplicates(),
            it.seq().len() == m@.dom().len(),
            out@.len() == it.seq().len() ==> out@ == it.seq().unref(),
    {
        out.push(*k);
        assert(out@.len() == it.seq().len() ==> out@ =~= it.seq().unref());
    }
    proof {
        if out@.len() == 0 {
            assert(m@.dom() =~= Set::<u128>::empty());
            assert(out@.to_set() =~= Set::<u128>::empty());
        }
    }
    out
}

} // verus!
