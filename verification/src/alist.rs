//! Association lists: sequences of key/value pairs with pairwise-distinct
//! keys, and the finite map such a sequence denotes. The three tables of the
//! codec (frequency table, code mapping, reverse mapping) are all stored this
//! way, so their contracts can speak of `Map` values.

use vstd::prelude::*;

verus! {

/// The first components of the pairs are pairwise distinct.
pub open spec fn distinct_keys<K, V>(pairs: Seq<(K, V)>) -> bool {
    forall|i: int, j: int|
        0 <= i < j < pairs.len() ==> (#[trigger] pairs[i]).0 != (#[trigger] pairs[j]).0
}

/// The map denoted by an association list: a key is bound exactly when some
/// pair carries it, and then to that pair's value.
pub open spec fn alist_map<K, V>(pairs: Seq<(K, V)>) -> Map<K, V> {
    Map::new(
        |k: K| exists|i: int| 0 <= i < pairs.len() && (#[trigger] pairs[i]).0 == k,
        |k: K| pairs[choose|i: int| 0 <= i < pairs.len() && (#[trigger] pairs[i]).0 == k].1,
    )
}

/// With distinct keys, the denoted map agrees with the list entry by entry.
pub proof fn lemma_alist_map_index<K, V>(pairs: Seq<(K, V)>, idx: int)
    requires
        distinct_keys(pairs),
        0 <= idx < pairs.len(),
    ensures
        alist_map(pairs).dom().contains(pairs[idx].0),
        alist_map(pairs)[pairs[idx].0] == pairs[idx].1,
{
    let k = pairs[idx].0;
    assert(0 <= idx < pairs.len() && pairs[idx].0 == k);
    let i = choose|i: int| 0 <= i < pairs.len() && (#[trigger] pairs[i]).0 == k;
    assert(0 <= i < pairs.len() && pairs[i].0 == k);
    assert(i == idx);
}

/// Every bound key of the denoted map is carried by some pair.
pub proof fn lemma_alist_map_dom<K, V>(pairs: Seq<(K, V)>, k: K)
    requires
        alist_map(pairs).dom().contains(k),
    ensures
        exists|i: int| 0 <= i < pairs.len() && (#[trigger] pairs[i]).0 == k,
{
}

/// With distinct keys, the denoted map binds exactly as many keys as the
/// list has pairs.
pub proof fn lemma_alist_map_dom_len<K, V>(pairs: Seq<(K, V)>)
    requires
        distinct_keys(pairs),
    ensures
        alist_map(pairs).dom().finite(),
        alist_map(pairs).dom().len() == pairs.len(),
    decreases pairs.len(),
{
    broadcast use vstd::set::group_set_axioms;

    if pairs.len() == 0 {
        assert(alist_map(pairs).dom() =~= Set::<K>::empty());
    } else {
        let rest = pairs.drop_last();
        let last = pairs.last();
        assert(distinct_keys(rest)) by {
            assert(forall|i: int, j: int|
                0 <= i < j < rest.len() ==> (#[trigger] rest[i]).0 != (#[trigger] rest[j]).0)
                by {
                assert(forall|i: int| 0 <= i < rest.len() ==> rest[i] == pairs[i]);
            }
        }
        lemma_alist_map_dom_len(rest);
        assert(alist_map(pairs).dom() =~= alist_map(rest).dom().insert(last.0)) by {
            assert(forall|i: int| 0 <= i < rest.len() ==> rest[i] == pairs[i]);
            assert(pairs[pairs.len() - 1] == last);
        }
        assert(!alist_map(rest).dom().contains(last.0)) by {
            if alist_map(rest).dom().contains(last.0) {
                let i = choose|i: int|
                    0 <= i < rest.len() && (#[trigger] rest[i]).0 == last.0;
                assert(pairs[i].0 == last.0);
                assert(pairs[pairs.len() - 1].0 == last.0);
            }
        }
    }
}

} // verus!
