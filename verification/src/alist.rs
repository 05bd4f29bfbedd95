//! Association lists with a `Map` view: the simple key-value
//! persistence primitive the engine stores its three tables in.

use vstd::prelude::*;

verus! {

/// The map an association list denotes; later entries shadow earlier
/// ones, which never happens under `unique_keys`.
pub open spec fn alist_map<K, V>(l: Seq<(K, V)>) -> Map<K, V>
    decreases l.len(),
{
    if l.len() == 0 {
        Map::empty()
    } else {
        alist_map(l.drop_last()).insert(l.last().0, l.last().1)
    }
}

/// No two entries share a key.
pub open spec fn unique_keys<K, V>(l: Seq<(K, V)>) -> bool {
    forall|i: int, j: int| 0 <= i < j < l.len() ==> (#[trigger] l[i]).0 != (#[trigger] l[j]).0
}

/// A key is in the map exactly when some entry carries it.
pub proof fn lemma_alist_map_dom<K, V>(l: Seq<(K, V)>, k: K)
    ensures
        alist_map(l).contains_key(k) <==> exists|i: int| 0 <= i < l.len() && (#[trigger] l[i]).0
            == k,
    decreases l.len(),
{
    if l.len() == 0 {
    } else {
        lemma_alist_map_dom(l.drop_last(), k);
        if l.last().0 == k {
            assert(l[l.len() - 1].0 == k);
        } else if alist_map(l).contains_key(k) {
            let i = choose|i: int| 0 <= i < l.drop_last().len() && (#[trigger] l.drop_last()[i]).0
                == k;
            assert(l[i].0 == k);
        } else {
            assert forall|i: int| 0 <= i < l.len() implies (#[trigger] l[i]).0 != k by {
                if i < l.len() - 1 {
                    assert(l.drop_last()[i].0 == l[i].0);
                }
            }
        }
    }
}

/// Under unique keys, the entry that carries a key gives its value.
pub proof fn lemma_alist_map_at<K, V>(l: Seq<(K, V)>, i: int)
    requires
        unique_keys(l),
        0 <= i < l.len(),
    ensures
        alist_map(l).contains_key(l[i].0),
        alist_map(l)[l[i].0] == l[i].1,
    decreases l.len(),
{
    if i == l.len() - 1 {
    } else {
        lemma_alist_map_at(l.drop_last(), i);
        assert(l.drop_last()[i] == l[i]);
        assert(l[i].0 != l.last().0);
    }
}

/// Appending a fresh entry inserts it into the map.
pub proof fn lemma_alist_map_push<K, V>(l: Seq<(K, V)>, k: K, v: V)
    ensures
        alist_map(l.push((k, v))) == alist_map(l).insert(k, v),
{
    assert(l.push((k, v)).drop_last() =~= l);
    assert(l.push((k, v)).last() == (k, v));
}

/// Overwriting the entry that carries a key updates the map at it.
pub proof fn lemma_alist_map_update<K, V>(l: Seq<(K, V)>, i: int, v: V)
    requires
        unique_keys(l),
        0 <= i < l.len(),
    ensures
        alist_map(l.update(i, (l[i].0, v))) =~= alist_map(l).insert(l[i].0, v),
    decreases l.len(),
{
    let lu = l.update(i, (l[i].0, v));
    if i == l.len() - 1 {
        assert(lu.drop_last() =~= l.drop_last());
        assert(lu.last() == (l[i].0, v));
    } else {
        lemma_alist_map_update(l.drop_last(), i, v);
        assert(lu.drop_last() =~= l.drop_last().update(i, (l[i].0, v)));
        assert(l.drop_last()[i] == l[i]);
        assert(lu.last() == l.last());
        assert(l[i].0 != l.last().0);
        assert(alist_map(lu) == alist_map(l.drop_last()).insert(l[i].0, v).insert(
            l.last().0,
            l.last().1,
        ));
    }
}

} // verus!
