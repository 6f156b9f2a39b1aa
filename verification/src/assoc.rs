//! Association lists read as maps: the model behind objects.

use vstd::prelude::*;

verus! {

/// The map that a list of key-value pairs stands for. Where a key occurs
/// more than once, the last pair wins.
pub open spec fn map_of<K, V>(pairs: Seq<(K, V)>) -> Map<K, V>
    decreases pairs.len(),
{
    if pairs.len() == 0 {
        Map::empty()
    } else {
        map_of(pairs.drop_last()).insert(pairs.last().0, pairs.last().1)
    }
}

/// The keys of a list of pairs, in order.
pub open spec fn keys_of<K, V>(pairs: Seq<(K, V)>) -> Seq<K> {
    Seq::new(pairs.len(), |i: int| pairs[i].0)
}

/// Dropping the last pair drops the last key.
pub proof fn lemma_keys_drop_last<K, V>(pairs: Seq<(K, V)>)
    requires
        pairs.len() > 0,
    ensures
        keys_of(pairs.drop_last()) == keys_of(pairs).drop_last(),
        keys_of(pairs).no_duplicates() ==> keys_of(pairs.drop_last()).no_duplicates(),
{
    assert(keys_of(pairs.drop_last()) =~= keys_of(pairs).drop_last());
}

/// The domain of `map_of` is the set of keys, and it is finite.
pub proof fn lemma_map_of_dom<K, V>(pairs: Seq<(K, V)>)
    ensures
        map_of(pairs).dom().finite(),
        forall|k: K|
            #![trigger map_of(pairs).dom().contains(k)]
            #![trigger keys_of(pairs).contains(k)]
            map_of(pairs).dom().contains(k) <==> keys_of(pairs).contains(k),
    decreases pairs.len(),
{
    if pairs.len() > 0 {
        let init = pairs.drop_last();
        let keys = keys_of(pairs);
        lemma_map_of_dom(init);
        lemma_keys_drop_last(pairs);
        assert forall|k: K| map_of(pairs).dom().contains(k) <==> keys.contains(k) by {
            assert(keys[keys.len() - 1] == pairs.last().0);
            if keys.contains(k) {
                let i = choose|i: int| 0 <= i < keys.len() && keys[i] == k;
                if i < keys.len() - 1 {
                    assert(keys.drop_last()[i] == k);
                }
            }
            if map_of(pairs).dom().contains(k) && k != pairs.last().0 {
                let i = choose|i: int| 0 <= i < keys.drop_last().len() && keys.drop_last()[i] == k;
            }
        }
    }
}

/// With distinct keys, every pair is found under its key.
pub proof fn lemma_map_of_index<K, V>(pairs: Seq<(K, V)>, i: int)
    requires
        keys_of(pairs).no_duplicates(),
        0 <= i < pairs.len(),
    ensures
        map_of(pairs).contains_key(pairs[i].0),
        map_of(pairs)[pairs[i].0] == pairs[i].1,
    decreases pairs.len(),
{
    let init = pairs.drop_last();
    if i < pairs.len() - 1 {
        lemma_keys_drop_last(pairs);
        lemma_map_of_index(init, i);
        assert(keys_of(pairs)[i] != keys_of(pairs)[pairs.len() - 1]);
    }
}

/// With distinct keys, the map has as many entries as the list has pairs.
pub proof fn lemma_map_of_len<K, V>(pairs: Seq<(K, V)>)
    requires
        keys_of(pairs).no_duplicates(),
    ensures
        map_of(pairs).dom().finite(),
        map_of(pairs).len() == pairs.len(),
    decreases pairs.len(),
{
    lemma_map_of_dom(pairs);
    if pairs.len() > 0 {
        let init = pairs.drop_last();
        lemma_keys_drop_last(pairs);
        lemma_map_of_len(init);
        lemma_map_of_dom(init);
        if map_of(init).dom().contains(pairs.last().0) {
            let keys = keys_of(pairs);
            let j = choose|j: int| 0 <= j < keys.drop_last().len() && keys.drop_last()[j] == pairs.last().0;
            assert(keys[j] == keys[keys.len() - 1]);
        }
    }
}

/// Replacing the value of the pair at `i` is an insert under its key.
pub proof fn lemma_map_of_update<K, V>(pairs: Seq<(K, V)>, i: int, v: V)
    requires
        keys_of(pairs).no_duplicates(),
        0 <= i < pairs.len(),
    ensures
        map_of(pairs.update(i, (pairs[i].0, v))) == map_of(pairs).insert(pairs[i].0, v),
    decreases pairs.len(),
{
    let k = pairs[i].0;
    let next = pairs.update(i, (k, v));
    let init = pairs.drop_last();
    if i == pairs.len() - 1 {
        assert(next.drop_last() =~= init);
    } else {
        lemma_keys_drop_last(pairs);
        lemma_map_of_update(init, i, v);
        assert(next.drop_last() =~= init.update(i, (k, v)));
        assert(keys_of(pairs)[i] != keys_of(pairs)[pairs.len() - 1]);
    }
}

/// Where what is left of a list from `k` on is `head` and then `rest`, the
/// element at `k` is `head` and what is left after it is `rest`.
pub proof fn lemma_skip_step<A>(s: Seq<A>, k: int, head: A, rest: Seq<A>)
    requires
        0 <= k <= s.len(),
        s.skip(k) == seq![head] + rest,
    ensures
        k < s.len(),
        s[k] == head,
        s.skip(k + 1) == rest,
        s.take(k + 1) == s.take(k).push(head),
        s.take(k + 1).drop_last() == s.take(k),
{
    let tail = s.skip(k);
    assert(tail.len() == 1 + rest.len());
    assert(s[k] == tail[0]);
    assert forall|j: int| 0 <= j < rest.len() implies s.skip(k + 1)[j] == rest[j] by {
        assert(s.skip(k + 1)[j] == tail[j + 1]);
    }
}

} // verus!
