//! Association lists with pairwise-distinct keys, and the finite maps they
//! denote. The remap table, the grab ledger and the adoption-record table
//! are all kept as such lists, so their contracts can speak of `Map` views.

use vstd::prelude::*;

verus! {

/// The finite map a pair list denotes, later pairs overwriting earlier
/// ones with the same key.
pub open spec fn assoc_map<K, V>(pairs: Seq<(K, V)>) -> Map<K, V>
    decreases pairs.len(),
{
    if pairs.len() == 0 {
        Map::empty()
    } else {
        assoc_map(pairs.drop_last()).insert(pairs.last().0, pairs.last().1)
    }
}

/// The keys of a pair list are pairwise distinct, so the list carries each
/// entry of the map it denotes exactly once.
pub open spec fn assoc_unique<K, V>(pairs: Seq<(K, V)>) -> bool {
    forall|i: int, j: int|
        0 <= i < j < pairs.len() ==> (#[trigger] pairs[i]).0 != (#[trigger] pairs[j]).0
}

/// The map holds a key exactly when some pair carries it.
pub proof fn lemma_assoc_map_domain<K, V>(pairs: Seq<(K, V)>)
    ensures
        forall|k: K|
            assoc_map(pairs).contains_key(k) <==> exists|i: int|
                0 <= i < pairs.len() && (#[trigger] pairs[i]).0 == k,
    decreases pairs.len(),
{
    if pairs.len() > 0 {
        lemma_assoc_map_domain(pairs.drop_last());
        assert forall|k: K| assoc_map(pairs).contains_key(k) implies exists|i: int|
            0 <= i < pairs.len() && (#[trigger] pairs[i]).0 == k by {
            if k == pairs.last().0 {
                assert((pairs[pairs.len() - 1]).0 == k);
            } else {
                assert(assoc_map(pairs.drop_last()).contains_key(k));
                let i = choose|i: int|
                    0 <= i < pairs.drop_last().len() && (#[trigger] pairs.drop_last()[i]).0 == k;
                assert(pairs.drop_last()[i] == pairs[i]);
            }
        }
        assert forall|k: K| (exists|i: int| 0 <= i < pairs.len() && (#[trigger] pairs[i]).0 == k)
            implies assoc_map(pairs).contains_key(k) by {
            let i = choose|i: int| 0 <= i < pairs.len() && (#[trigger] pairs[i]).0 == k;
            if i < pairs.len() - 1 {
                assert(pairs.drop_last()[i].0 == k);
                assert(assoc_map(pairs.drop_last()).contains_key(k));
            } else {
                assert(k == pairs.last().0);
            }
        }
    }
}

/// With distinct keys, each pair is the map entry for its key.
pub proof fn lemma_assoc_map_entry<K, V>(pairs: Seq<(K, V)>, i: int)
    requires
        0 <= i < pairs.len(),
        assoc_unique(pairs),
    ensures
        assoc_map(pairs).contains_key(pairs[i].0),
        assoc_map(pairs)[pairs[i].0] == pairs[i].1,
    decreases pairs.len(),
{
    if i == pairs.len() - 1 {
    } else {
        assert(assoc_unique(pairs.drop_last()));
        lemma_assoc_map_entry(pairs.drop_last(), i);
        assert(pairs.drop_last()[i] == pairs[i]);
        assert(pairs[i].0 != pairs[pairs.len() - 1].0);
    }
}

/// Replacing the pair at `i` in place replaces its entry in the map.
pub proof fn lemma_assoc_map_update<K, V>(pairs: Seq<(K, V)>, i: int, k: K, v: V)
    requires
        0 <= i < pairs.len(),
        pairs[i].0 == k,
        assoc_unique(pairs),
    ensures
        assoc_map(pairs.update(i, (k, v))) =~= assoc_map(pairs).insert(k, v),
    decreases pairs.len(),
{
    let upd = pairs.update(i, (k, v));
    if i == pairs.len() - 1 {
        assert(upd.drop_last() =~= pairs.drop_last());
    } else {
        assert(assoc_unique(pairs.drop_last()));
        lemma_assoc_map_update(pairs.drop_last(), i, k, v);
        assert(upd.drop_last() =~= pairs.drop_last().update(i, (k, v)));
        assert(pairs[pairs.len() - 1].0 != k);
        assert(upd.last() == pairs.last());
    }
}

/// Appending a pair inserts its entry into the map.
pub proof fn lemma_assoc_map_push<K, V>(pairs: Seq<(K, V)>, k: K, v: V)
    ensures
        assoc_map(pairs.push((k, v))) =~= assoc_map(pairs).insert(k, v),
{
    assert(pairs.push((k, v)).drop_last() =~= pairs);
}

} // verus!
