use vstd::prelude::*;

verus! {

/// The map that inserting `pairs` in order into an empty map gives: a later
/// pair overwrites an earlier one with the same key.
pub open spec fn pairs_map<V>(pairs: Seq<(Seq<char>, V)>) -> Map<Seq<char>, V>
    decreases pairs.len(),
{
    if pairs.len() == 0 {
        Map::empty()
    } else {
        pairs_map(pairs.drop_last()).insert(pairs.last().0, pairs.last().1)
    }
}

/// No key occurs twice among `pairs`.
pub open spec fn keys_unique<V>(pairs: Seq<(Seq<char>, V)>) -> bool {
    forall|i: int, j: int|
        0 <= i < pairs.len() && 0 <= j < pairs.len() && i != j ==> #[trigger] pairs[i].0
            != #[trigger] pairs[j].0
}

/// Every key of `pairs_map(pairs)` is the key of one of the pairs.
pub proof fn lemma_pairs_map_keys<V>(pairs: Seq<(Seq<char>, V)>, k: Seq<char>)
    requires
        pairs_map(pairs).contains_key(k),
    ensures
        exists|i: int| 0 <= i < pairs.len() && (#[trigger] pairs[i]).0 == k,
    decreases pairs.len(),
{
    if pairs.len() > 0 && pairs.last().0 != k {
        lemma_pairs_map_keys(pairs.drop_last(), k);
        let i = choose|i: int| 0 <= i < pairs.drop_last().len() && (#[trigger] pairs.drop_last()[i]).0 == k;
        assert(pairs[i] == pairs.drop_last()[i]);
    } else if pairs.len() > 0 {
        assert(pairs[pairs.len() - 1].0 == k);
    }
}

/// With unique keys, each pair's key maps to that pair's value.
pub proof fn lemma_pairs_map_at<V>(pairs: Seq<(Seq<char>, V)>, i: int)
    requires
        keys_unique(pairs),
        0 <= i < pairs.len(),
    ensures
        pairs_map(pairs).contains_key(pairs[i].0),
        pairs_map(pairs)[pairs[i].0] == pairs[i].1,
    decreases pairs.len(),
{
    if i < pairs.len() - 1 {
        let d = pairs.drop_last();
        assert(keys_unique(d)) by {
            assert forall|a: int, b: int| 0 <= a < d.len() && 0 <= b < d.len() && a != b implies #[trigger] d[a].0
                != #[trigger] d[b].0 by {
                assert(d[a] == pairs[a] && d[b] == pairs[b]);
            }
        }
        lemma_pairs_map_at(d, i);
        assert(d[i] == pairs[i]);
        assert(pairs[i].0 != pairs[pairs.len() - 1].0);
    }
}

/// With unique keys, replacing the value of pair `i` overwrites that key.
pub proof fn lemma_pairs_map_update<V>(pairs: Seq<(Seq<char>, V)>, i: int, v: V)
    requires
        keys_unique(pairs),
        0 <= i < pairs.len(),
    ensures
        pairs_map(pairs.update(i, (pairs[i].0, v))) == pairs_map(pairs).insert(pairs[i].0, v),
    decreases pairs.len(),
{
    let u = pairs.update(i, (pairs[i].0, v));
    let last = pairs.len() - 1;
    if i == last {
        assert(u.drop_last() =~= pairs.drop_last());
        assert(pairs_map(u) =~= pairs_map(pairs).insert(pairs[i].0, v));
    } else {
        let d = pairs.drop_last();
        assert(u.drop_last() =~= d.update(i, (d[i].0, v)));
        assert(keys_unique(d)) by {
            assert forall|a: int, b: int| 0 <= a < d.len() && 0 <= b < d.len() && a != b implies #[trigger] d[a].0
                != #[trigger] d[b].0 by {
                assert(d[a] == pairs[a] && d[b] == pairs[b]);
            }
        }
        lemma_pairs_map_update(d, i, v);
        assert(pairs[i].0 != pairs[last].0);
        assert(pairs_map(u) =~= pairs_map(pairs).insert(pairs[i].0, v));
    }
}

/// Dropping the last pair keeps keys unique.
pub proof fn lemma_unique_drop_last<V>(pairs: Seq<(Seq<char>, V)>)
    requires
        keys_unique(pairs),
        pairs.len() > 0,
    ensures
        keys_unique(pairs.drop_last()),
{
    let d = pairs.drop_last();
    assert forall|a: int, b: int| 0 <= a < d.len() && 0 <= b < d.len() && a != b implies #[trigger] d[a].0
        != #[trigger] d[b].0 by {
        assert(d[a] == pairs[a] && d[b] == pairs[b]);
    }
}

/// With unique keys, removing pair `i` removes its key and keeps the rest.
pub proof fn lemma_pairs_map_remove<V>(pairs: Seq<(Seq<char>, V)>, i: int)
    requires
        keys_unique(pairs),
        0 <= i < pairs.len(),
    ensures
        keys_unique(pairs.remove(i)),
        pairs_map(pairs.remove(i)) == pairs_map(pairs).remove(pairs[i].0),
    decreases pairs.len(),
{
    let r = pairs.remove(i);
    let d = pairs.drop_last();
    let last = pairs.len() - 1;
    lemma_unique_drop_last(pairs);
    assert forall|a: int, b: int| 0 <= a < r.len() && 0 <= b < r.len() && a != b implies #[trigger] r[a].0
        != #[trigger] r[b].0 by {
        let a2 = if a < i { a } else { a + 1 };
        let b2 = if b < i { b } else { b + 1 };
        assert(r[a] == pairs[a2] && r[b] == pairs[b2]);
    }
    if i == last {
        assert(r =~= d);
        if pairs_map(d).contains_key(pairs[i].0) {
            lemma_pairs_map_keys(d, pairs[i].0);
            let j = choose|j: int| 0 <= j < d.len() && (#[trigger] d[j]).0 == pairs[i].0;
            assert(d[j] == pairs[j]);
        }
        assert(pairs_map(r) =~= pairs_map(pairs).remove(pairs[i].0));
    } else {
        assert(r.drop_last() =~= d.remove(i));
        assert(r.last() == pairs.last());
        assert(d[i] == pairs[i]);
        lemma_pairs_map_remove(d, i);
        assert(pairs[i].0 != pairs[last].0);
        assert(pairs_map(r) =~= pairs_map(pairs).remove(pairs[i].0));
    }
}

} // verus!
