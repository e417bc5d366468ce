//! Maps that are kept as two lists, one of keys and one of values.

use vstd::prelude::*;

verus! {

/// The map from each key of a list to the value in the same place.
pub open spec fn assoc<K, V>(keys: Seq<K>, values: Seq<V>) -> Map<K, V> {
    Map::new(|k: K| keys.contains(k), |k: K| values[keys.index_of(k)])
}

/// The value of a key stands in the key's place.
pub proof fn lemma_assoc_at<K, V>(keys: Seq<K>, values: Seq<V>, i: int)
    requires
        keys.len() == values.len(),
        keys.no_duplicates(),
        0 <= i < keys.len(),
    ensures
        assoc(keys, values).contains_key(keys[i]),
        assoc(keys, values)[keys[i]] == values[i],
{
    assert(keys.contains(keys[i]));
    let at = keys.index_of(keys[i]);
    assert(0 <= at < keys.len() && keys[at] == keys[i]);
}

/// Putting a new key and its value behind the others inserts them.
pub proof fn lemma_assoc_push<K, V>(keys: Seq<K>, values: Seq<V>, key: K, value: V)
    requires
        keys.len() == values.len(),
        keys.no_duplicates(),
        !keys.contains(key),
    ensures
        keys.push(key).no_duplicates(),
        assoc(keys.push(key), values.push(value)) == assoc(keys, values).insert(key, value),
{
    let longer = keys.push(key);
    assert(longer[keys.len() as int] == key);
    assert(forall|i: int| 0 <= i < keys.len() ==> longer[i] == keys[i]);
    assert(longer.no_duplicates());
    assert forall|k: K| longer.contains(k) == (keys.contains(k) || k == key) by {
        if keys.contains(k) {
            let i = keys.index_of(k);
            assert(longer[i] == k);
        }
        if longer.contains(k) {
            let i = longer.index_of(k);
            if i < keys.len() {
                assert(keys[i] == k);
            }
        }
    }
    assert forall|k: K| longer.contains(k) implies assoc(longer, values.push(value))[k] == assoc(
        keys,
        values,
    ).insert(key, value)[k] by {
        let i = longer.index_of(k);
        lemma_assoc_at(longer, values.push(value), i);
        if i < keys.len() {
            lemma_assoc_at(keys, values, i);
        }
    }
    assert(assoc(longer, values.push(value)) =~= assoc(keys, values).insert(key, value));
}

/// Replacing the value in a key's place replaces the key's value.
pub proof fn lemma_assoc_update<K, V>(keys: Seq<K>, values: Seq<V>, i: int, value: V)
    requires
        keys.len() == values.len(),
        keys.no_duplicates(),
        0 <= i < keys.len(),
    ensures
        assoc(keys, values.update(i, value)) == assoc(keys, values).insert(keys[i], value),
{
    assert forall|k: K| keys.contains(k) implies assoc(keys, values.update(i, value))[k] == assoc(
        keys,
        values,
    ).insert(keys[i], value)[k] by {
        let j = keys.index_of(k);
        lemma_assoc_at(keys, values, j);
        lemma_assoc_at(keys, values.update(i, value), j);
    }
    assert(keys.contains(keys[i]));
    assert(assoc(keys, values.update(i, value)) =~= assoc(keys, values).insert(keys[i], value));
}

} // verus!
