use vstd::prelude::*;

verus! {

/// Whether no two items of `s` have the same key.
pub open spec fn keys_unique<T>(s: Seq<T>, key: spec_fn(T) -> u32) -> bool {
    forall|i: int, j: int| 0 <= i < j < s.len() ==> key(s[i]) != key(s[j])
}

pub open spec fn has_key<T>(s: Seq<T>, key: spec_fn(T) -> u32, k: u32) -> bool {
    exists|i: int| 0 <= i < s.len() && key(s[i]) == k
}

/// The position of the item with key `k`.
pub open spec fn index_of_key<T>(s: Seq<T>, key: spec_fn(T) -> u32, k: u32) -> int {
    choose|i: int| 0 <= i < s.len() && key(s[i]) == k
}

/// The items of `s` by key.
pub open spec fn keyed_map<T>(s: Seq<T>, key: spec_fn(T) -> u32) -> Map<u32, T> {
    Map::new(|k: u32| has_key(s, key, k), |k: u32| s[index_of_key(s, key, k)])
}

pub proof fn lemma_keyed_index<T>(s: Seq<T>, key: spec_fn(T) -> u32, i: int)
    requires
        keys_unique(s, key),
        0 <= i < s.len(),
    ensures
        has_key(s, key, key(s[i])),
        index_of_key(s, key, key(s[i])) == i,
        keyed_map(s, key).contains_key(key(s[i])),
        keyed_map(s, key)[key(s[i])] == s[i],
{
    assert(has_key(s, key, key(s[i])));
    let j = index_of_key(s, key, key(s[i]));
    if j != i {
        if j < i {
            assert(key(s[j]) != key(s[i]));
        } else {
            assert(key(s[i]) != key(s[j]));
        }
    }
}

pub proof fn lemma_keyed_update<T>(s: Seq<T>, key: spec_fn(T) -> u32, i: int, x: T)
    requires
        keys_unique(s, key),
        0 <= i < s.len(),
        key(x) == key(s[i]),
    ensures
        keys_unique(s.update(i, x), key),
        keyed_map(s.update(i, x), key) == keyed_map(s, key).insert(key(x), x),
{
    let t = s.update(i, x);
    assert forall|a: int, b: int| 0 <= a < b < t.len() implies key(t[a]) != key(t[b]) by {
        assert(key(t[a]) == key(s[a]) && key(t[b]) == key(s[b]));
    }
    lemma_keyed_index(t, key, i);
    assert forall|k: u32| #[trigger] has_key(t, key, k) == has_key(s, key, k) by {
        if has_key(t, key, k) {
            let a = choose|a: int| 0 <= a < t.len() && key(t[a]) == k;
            assert(key(s[a]) == k);
        }
        if has_key(s, key, k) {
            let a = choose|a: int| 0 <= a < s.len() && key(s[a]) == k;
            assert(key(t[a]) == k);
        }
    }
    assert forall|k: u32| has_key(t, key, k) && k != key(x) implies keyed_map(t, key)[k]
        == keyed_map(s, key)[k] by {
        let a = index_of_key(t, key, k);
        lemma_keyed_index(t, key, a);
        lemma_keyed_index(s, key, a);
    }
    assert(keyed_map(t, key) =~= keyed_map(s, key).insert(key(x), x));
}

pub proof fn lemma_keyed_push<T>(s: Seq<T>, key: spec_fn(T) -> u32, x: T)
    requires
        keys_unique(s, key),
        !has_key(s, key, key(x)),
    ensures
        keys_unique(s.push(x), key),
        keyed_map(s.push(x), key) == keyed_map(s, key).insert(key(x), x),
{
    let t = s.push(x);
    assert forall|a: int, b: int| 0 <= a < b < t.len() implies key(t[a]) != key(t[b]) by {
        if b == s.len() {
            assert(key(s[a]) != key(x));
        }
    }
    lemma_keyed_index(t, key, s.len() as int);
    assert forall|k: u32| #[trigger] has_key(t, key, k) == (has_key(s, key, k) || k == key(x)) by {
        if has_key(t, key, k) {
            let a = choose|a: int| 0 <= a < t.len() && key(t[a]) == k;
            if a < s.len() {
                assert(key(s[a]) == k);
            }
        }
        if has_key(s, key, k) {
            let a = choose|a: int| 0 <= a < s.len() && key(s[a]) == k;
            assert(key(t[a]) == k);
        }
    }
    assert forall|k: u32| has_key(s, key, k) implies keyed_map(t, key)[k] == keyed_map(s, key)[k] by {
        let a = index_of_key(s, key, k);
        lemma_keyed_index(s, key, a);
        lemma_keyed_index(t, key, a);
    }
    assert(keyed_map(t, key) =~= keyed_map(s, key).insert(key(x), x));
}

pub proof fn lemma_keyed_remove<T>(s: Seq<T>, key: spec_fn(T) -> u32, i: int)
    requires
        keys_unique(s, key),
        0 <= i < s.len(),
    ensures
        keys_unique(s.remove(i), key),
        keyed_map(s.remove(i), key) == keyed_map(s, key).remove(key(s[i])),
{
    let t = s.remove(i);
    assert forall|a: int, b: int| 0 <= a < b < t.len() implies key(t[a]) != key(t[b]) by {
        let a0 = if a < i { a } else { a + 1 };
        let b0 = if b < i { b } else { b + 1 };
        assert(t[a] == s[a0] && t[b] == s[b0]);
    }
    assert forall|k: u32| #[trigger] has_key(t, key, k) == (has_key(s, key, k) && k != key(s[i])) by {
        if has_key(t, key, k) {
            let a = choose|a: int| 0 <= a < t.len() && key(t[a]) == k;
            let a0 = if a < i { a } else { a + 1 };
            assert(t[a] == s[a0]);
            if a0 < i {
                assert(key(s[a0]) != key(s[i]));
            } else {
                assert(key(s[i]) != key(s[a0]));
            }
        }
        if has_key(s, key, k) && k != key(s[i]) {
            let a = choose|a: int| 0 <= a < s.len() && key(s[a]) == k;
            let a1 = if a < i { a } else { a - 1 };
            assert(t[a1] == s[a]);
        }
    }
    assert forall|k: u32| has_key(t, key, k) implies keyed_map(t, key)[k] == keyed_map(s, key)[k] by {
        let a = index_of_key(t, key, k);
        lemma_keyed_index(t, key, a);
        let a0 = if a < i { a } else { a + 1 };
        assert(t[a] == s[a0]);
        lemma_keyed_index(s, key, a0);
    }
    assert(keyed_map(t, key) =~= keyed_map(s, key).remove(key(s[i])));
}

/// Items with unique keys give a map with one key per item.
pub proof fn lemma_keyed_len<T>(s: Seq<T>, key: spec_fn(T) -> u32)
    requires
        keys_unique(s, key),
    ensures
        keyed_map(s, key).dom().finite(),
        keyed_map(s, key).dom().len() == s.len(),
    decreases s.len(),
{
    if s.len() == 0 {
        assert(keyed_map(s, key).dom() =~= Set::<u32>::empty());
    } else {
        let t = s.drop_last();
        let x = s.last();
        assert forall|a: int, b: int| 0 <= a < b < t.len() implies key(t[a]) != key(t[b]) by {
            assert(t[a] == s[a] && t[b] == s[b]);
        }
        lemma_keyed_len(t, key);
        assert(!has_key(t, key, key(x))) by {
            if has_key(t, key, key(x)) {
                let a = choose|a: int| 0 <= a < t.len() && key(t[a]) == key(x);
                assert(t[a] == s[a]);
                assert(key(s[a]) != key(s[s.len() - 1]));
            }
        }
        lemma_keyed_push(t, key, x);
        assert(t.push(x) == s);
        assert(keyed_map(s, key).dom() =~= keyed_map(t, key).dom().insert(key(x)));
    }
}

} // verus!
