//! The order in which an ordered map hands out its keys.
use vstd::prelude::*;
use vstd::std_specs::btree::increasing_seq;
use vstd::std_specs::cmp::OrdSpec;

verus! {

/// The entries that an ordered map hands out in increasing order of key
/// have keys that ascend strictly as integers.
pub proof fn lemma_entries_ascend(entries: Seq<(&usize, &Vec<usize>)>)
    requires
        increasing_seq(entries.map_values(|kv: (&usize, &Vec<usize>)| *kv.0)),
    ensures
        forall|i: int, j: int| 0 <= i < j < entries.len() ==> *entries[i].0 < *entries[j].0,
{
    let keys = entries.map_values(|kv: (&usize, &Vec<usize>)| *kv.0);
    assert forall|i: int, j: int| 0 <= i < j < entries.len() implies *entries[i].0
        < *entries[j].0 by {
        assert(keys[i].cmp_spec(&keys[j]) is Less);
    }
}

} // verus!
