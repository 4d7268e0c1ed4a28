//! Helpers of the game loop.

use std::collections::HashSet;
use std::hash::Hash;
use vstd::prelude::*;
use vstd::std_specs::hash::{group_hash_axioms, obeys_key_model};

verus! {

broadcast use group_hash_axioms;

/// Take some element out of `set`; `None` when it is empty.
pub fn pop<T: Copy + Eq + Hash>(set: &mut HashSet<T>) -> (r: Option<T>)
    requires
        obeys_key_model::<T>(),
    ensures
        match r {
            Some(e) => old(set)@.contains(e) && final(set)@ == old(set)@.remove(e),
            None => old(set)@.len() == 0 && final(set)@ == old(set)@,
        },
{
    proof {
        vstd::std_specs::hash::axiom_spec_hash_keys_iter(set);
    }
    let mut first: Option<T> = None;
    for e in it: set.iter()
        invariant_except_break
            first is None,
            it.index() == 0,
        invariant
            it.seq().len() == set@.len(),
            it.seq().unref().to_set() == set@,
        ensures
            first matches Some(x) ==> set@.contains(x),
            first is None ==> set@.len() == 0,
    {
        proof {
            assert(it.seq().unref()[it.index() as int] == *e);
            assert(it.seq().unref().to_set().contains(*e));
        }
        first = Some(*e);
        break;
    }
    if let Some(elt) = first {
        set.remove(&elt);
        Some(elt)
    } else {
        None
    }
}

} // verus!
