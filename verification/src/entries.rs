//! Maps from names to values, kept as vectors of entries with pairwise different names.
use vstd::prelude::*;

verus! {

/// The names of the entries, in order.
pub open spec fn keys<V>(entries: Seq<(String, V)>) -> Seq<Seq<char>> {
    entries.map_values(|e: (String, V)| e.0@)
}

/// The map that sends `keys[i]` to `values[i]`, for keys that are pairwise different.
pub open spec fn zip_map<V>(keys: Seq<Seq<char>>, values: Seq<V>) -> Map<Seq<char>, V> {
    Map::new(|k: Seq<char>| keys.contains(k), |k: Seq<char>| values[keys.index_of(k)])
}

/// The value at the position of its key.
pub proof fn lemma_zip_map_at<V>(keys: Seq<Seq<char>>, values: Seq<V>, i: int)
    requires
        keys.no_duplicates(),
        0 <= i < keys.len(),
    ensures
        zip_map(keys, values).contains_key(keys[i]),
        zip_map(keys, values)[keys[i]] == values[i],
{
    assert(keys.contains(keys[i]));
    assert(keys[keys.index_of(keys[i])] == keys[i]);
}

/// A new key at the end.
pub proof fn lemma_zip_map_push<V>(keys: Seq<Seq<char>>, values: Seq<V>, key: Seq<char>, value: V)
    requires
        keys.no_duplicates(),
        keys.len() == values.len(),
        !keys.contains(key),
    ensures
        keys.push(key).no_duplicates(),
        zip_map(keys.push(key), values.push(value)) == zip_map(keys, values).insert(key, value),
{
    let keys2 = keys.push(key);
    let values2 = values.push(value);
    let m1 = zip_map(keys2, values2);
    let m2 = zip_map(keys, values).insert(key, value);
    assert forall|k: Seq<char>| m1.contains_key(k) == m2.contains_key(k) by {
        if keys.contains(k) {
            let i = keys.index_of(k);
            assert(keys2[i] == k);
        }
        if k == key {
            assert(keys2[keys.len() as int] == k);
        }
        if keys2.contains(k) && k != key {
            let i = keys2.index_of(k);
            assert(keys[i] == k);
        }
    }
    assert forall|k: Seq<char>| m1.contains_key(k) implies m1[k] == m2[k] by {
        let i = keys2.index_of(k);
        assert(keys2[i] == k);
        if k == key {
            assert(i == keys.len());
        } else {
            assert(keys[i] == k);
            assert(keys.contains(k));
            assert(keys.index_of(k) == i);
        }
    }
    assert(m1 =~= m2);
}

/// A new value for a key that is there.
pub proof fn lemma_zip_map_update<V>(keys: Seq<Seq<char>>, values: Seq<V>, i: int, value: V)
    requires
        keys.no_duplicates(),
        keys.len() == values.len(),
        0 <= i < keys.len(),
    ensures
        zip_map(keys, values.update(i, value)) == zip_map(keys, values).insert(keys[i], value),
{
    let m1 = zip_map(keys, values.update(i, value));
    let m2 = zip_map(keys, values).insert(keys[i], value);
    assert(keys.contains(keys[i]));
    assert forall|k: Seq<char>| m1.contains_key(k) implies m1[k] == m2[k] by {
        let j = keys.index_of(k);
        assert(keys[j] == k);
    }
    assert(m1 =~= m2);
}

/// One entry less.
pub proof fn lemma_zip_map_remove<V>(keys: Seq<Seq<char>>, values: Seq<V>, i: int)
    requires
        keys.no_duplicates(),
        keys.len() == values.len(),
        0 <= i < keys.len(),
    ensures
        keys.remove(i).no_duplicates(),
        zip_map(keys.remove(i), values.remove(i)) == zip_map(keys, values).remove(keys[i]),
{
    let keys2 = keys.remove(i);
    let values2 = values.remove(i);
    let m1 = zip_map(keys2, values2);
    let m2 = zip_map(keys, values).remove(keys[i]);
    assert forall|k: Seq<char>| m1.contains_key(k) == m2.contains_key(k) by {
        if keys2.contains(k) {
            let j = keys2.index_of(k);
            assert(keys2[j] == k);
            assert(keys[if j < i { j } else { j + 1 }] == k);
        }
        if keys.contains(k) && k != keys[i] {
            let j = keys.index_of(k);
            assert(keys[j] == k);
            assert(keys2[if j < i { j } else { j - 1 }] == k);
        }
    }
    assert forall|k: Seq<char>| m1.contains_key(k) implies m1[k] == m2[k] by {
        let j = keys2.index_of(k);
        assert(keys2[j] == k);
        let j0 = if j < i { j } else { j + 1 };
        assert(keys[j0] == k);
        assert(keys.contains(k));
        assert(keys.index_of(k) == j0);
    }
    assert(m1 =~= m2);
}

/// As many keys in the map as entries.
pub proof fn lemma_zip_map_len<V>(keys: Seq<Seq<char>>, values: Seq<V>)
    requires
        keys.no_duplicates(),
    ensures
        zip_map(keys, values).dom().finite(),
        zip_map(keys, values).dom() == keys.to_set(),
        zip_map(keys, values).len() == keys.len(),
{
    assert(zip_map(keys, values).dom() =~= keys.to_set());
    keys.unique_seq_to_set();
}

/// The position of the entry named `key`, if there is one.
pub fn position<V>(entries: &Vec<(String, V)>, key: &String) -> (res: Option<usize>)
    ensures
        match res {
            Some(i) => i < entries@.len() && entries@[i as int].0@ == key@,
            None => !keys(entries@).contains(key@),
        },
{
    let mut i: usize = 0;
    while i < entries.len()
        invariant
            i <= entries@.len(),
            forall|j: int| 0 <= j < i ==> keys(entries@)[j] != key@,
        decreases entries@.len() - i,
    {
        if entries[i].0 == *key {
            return Some(i);
        }
        i = i + 1;
    }
    None
}

} // verus!
