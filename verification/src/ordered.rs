//! Walking an ordered map by increasing key.
use std::collections::BTreeMap;
use vstd::prelude::*;
use vstd::std_specs::btree;
use vstd::std_specs::cmp::OrdSpec;
use vstd::std_specs::iter::IteratorSpec;

verus! {

/// What walking a map in order hands out: every entry once, by increasing key.
pub open spec fn in_order<V>(entries: Seq<(&u64, &V)>, map: Map<u64, V>) -> bool {
    &&& forall|i: int, j: int| 0 <= i < j < entries.len() ==> *entries[i].0 < *entries[j].0
    &&& forall|i: int|
        #![trigger entries[i]]
        0 <= i < entries.len() ==> map.contains_key(*entries[i].0) && map[*entries[i].0]
            == *entries[i].1
    &&& forall|k: u64| #[trigger]
        map.contains_key(k) ==> exists|i: int| 0 <= i < entries.len() && *entries[i].0 == k
}

/// An iterator over a map walks it in order.
pub proof fn lemma_iter_in_order<V>(map: &BTreeMap<u64, V>)
    requires
        btree::increasing_seq(
            btree::spec_btree_map_iter(map).remaining().map_values(|kv: (&u64, &V)| *kv.0),
        ),
    ensures
        in_order(btree::spec_btree_map_iter(map).remaining(), map@),
{
    let entries = btree::spec_btree_map_iter(map).remaining();
    let keys = entries.map_values(|kv: (&u64, &V)| *kv.0);
    assert(vstd::laws_cmp::obeys_cmp::<u64>());
    assert forall|i: int, j: int| 0 <= i < j < entries.len() implies *entries[i].0
        < *entries[j].0 by {
        assert(keys[i].cmp_spec(&keys[j]) is Less);
    }
    assert forall|k: u64| #[trigger] map@.contains_key(k) implies exists|i: int|
        0 <= i < entries.len() && *entries[i].0 == k by {
        assert(entries.contains((&k, &map@[k])));
    }
}

/// Returns the least key of `map` that is at least `bound`.
pub fn first_key_at_least<V>(map: &BTreeMap<u64, V>, bound: u64) -> (key: Option<u64>)
    ensures
        match key {
            Some(k) => {
                &&& map@.contains_key(k)
                &&& bound <= k
                &&& forall|j: u64| map@.contains_key(j) && bound <= j ==> k <= j
            },
            None => forall|j: u64| map@.contains_key(j) ==> j < bound,
        },
{
    let iter = map.iter();
    proof {
        lemma_iter_in_order(map);
    }
    for entry in it: iter
        invariant
            in_order(it.seq(), map@),
            forall|i: int| 0 <= i < it.index() ==> *it.seq()[i].0 < bound,
    {
        let k: u64 = *entry.0;
        if k >= bound {
            return Some(k);
        }
    }
    None
}

/// Returns the greatest key of `map` that is below `bound`.
pub fn last_key_below<V>(map: &BTreeMap<u64, V>, bound: u64) -> (key: Option<u64>)
    ensures
        match key {
            Some(k) => {
                &&& map@.contains_key(k)
                &&& k < bound
                &&& forall|j: u64| map@.contains_key(j) && j < bound ==> j <= k
            },
            None => forall|j: u64| map@.contains_key(j) ==> bound <= j,
        },
{
    let mut last: Option<u64> = None;
    let iter = map.iter();
    proof {
        lemma_iter_in_order(map);
    }
    for entry in it: iter
        invariant
            in_order(it.seq(), map@),
            it.index() == 0 ==> last is None,
            it.index() > 0 ==> last == Some(*it.seq()[it.index() - 1].0),
            last matches Some(k) ==> k < bound,
    {
        let k: u64 = *entry.0;
        if k >= bound {
            return last;
        }
        last = Some(k);
    }
    last
}

} // verus!
