use vstd::prelude::*;

verus! {

// The maps of this crate (chunk index, file map, blob buffer, file record)
// are sequences of entries addressed by a key: a digest, a path, or an
// offset.  The functions
// here give those sequences their map semantics.  `key` projects the key out
// of an entry.
/// The first entry of `s` whose key is `k`.
pub open spec fn spec_find<T, K>(s: Seq<T>, key: spec_fn(T) -> K, k: K) -> Option<T>
    decreases s.len(),
{
    if s.len() == 0 {
        None
    } else if key(s[0]) == k {
        Some(s[0])
    } else {
        spec_find(s.drop_first(), key, k)
    }
}

/// Whether some entry of `s` has key `k`.
pub open spec fn has_key<T, K>(s: Seq<T>, key: spec_fn(T) -> K, k: K) -> bool {
    spec_find(s, key, k) is Some
}

/// `s` with `x` replacing its first entry of the same key, or appended when
/// no entry has that key.
pub open spec fn spec_insert<T, K>(s: Seq<T>, key: spec_fn(T) -> K, x: T) -> Seq<T>
    decreases s.len(),
{
    if s.len() == 0 {
        seq![x]
    } else if key(s[0]) == key(x) {
        seq![x] + s.drop_first()
    } else {
        seq![s[0]] + spec_insert(s.drop_first(), key, x)
    }
}

/// No two entries of `s` share a key.
pub open spec fn distinct_keys<T, K>(s: Seq<T>, key: spec_fn(T) -> K) -> bool {
    forall|i: int, j: int| 0 <= i < j < s.len() ==> key(s[i]) != key(s[j])
}

/// A scan that stops at the first match finds what `spec_find` names.
pub proof fn lemma_find_at_index<T, K>(s: Seq<T>, key: spec_fn(T) -> K, i: int)
    requires
        0 <= i < s.len(),
        forall|j: int| 0 <= j < i ==> key(#[trigger] s[j]) != key(s[i]),
    ensures
        spec_find(s, key, key(s[i])) == Some(s[i]),
    decreases i,
{
    if i > 0 {
        assert(key(s[0]) != key(s[i]));
        lemma_find_at_index(s.drop_first(), key, i - 1);
        assert(s.drop_first()[i - 1] == s[i]);
    }
}

/// A scan that matches nowhere means `spec_find` is `None`.
pub proof fn lemma_find_none<T, K>(s: Seq<T>, key: spec_fn(T) -> K, k: K)
    requires
        forall|j: int| 0 <= j < s.len() ==> key(#[trigger] s[j]) != k,
    ensures
        spec_find(s, key, k) is None,
    decreases s.len(),
{
    if s.len() > 0 {
        lemma_find_none(s.drop_first(), key, k);
    }
}

/// When `spec_find` answers, its answer is the first entry with that key.
pub proof fn lemma_find_first_index<T, K>(s: Seq<T>, key: spec_fn(T) -> K, k: K)
    requires
        spec_find(s, key, k) is Some,
    ensures
        exists|i: int|
            0 <= i < s.len() && s[i] == spec_find(s, key, k)->Some_0 && key(s[i]) == k && (forall|
                j: int,
            | 0 <= j < i ==> key(#[trigger] s[j]) != k),
    decreases s.len(),
{
    if key(s[0]) == k {
        assert(s[0] == spec_find(s, key, k)->Some_0 && key(s[0]) == k);
    } else {
        lemma_find_first_index(s.drop_first(), key, k);
        let i0 = choose|i: int|
            0 <= i < s.drop_first().len() && s.drop_first()[i] == spec_find(
                s.drop_first(),
                key,
                k,
            )->Some_0 && key(s.drop_first()[i]) == k && (forall|j: int|
                0 <= j < i ==> key(#[trigger] s.drop_first()[j]) != k);
        assert(s[i0 + 1] == s.drop_first()[i0]);
        assert(forall|j: int| 0 <= j < i0 + 1 ==> key(#[trigger] s[j]) != k) by {
            assert(forall|j: int|
                1 <= j < i0 + 1 ==> #[trigger] s[j] == s.drop_first()[j - 1]);
        }
    }
}

/// Replacing the first match in place is what `spec_insert` does.
pub proof fn lemma_insert_at_index<T, K>(s: Seq<T>, key: spec_fn(T) -> K, x: T, i: int)
    requires
        0 <= i < s.len(),
        key(s[i]) == key(x),
        forall|j: int| 0 <= j < i ==> key(#[trigger] s[j]) != key(x),
    ensures
        spec_insert(s, key, x) =~= s.update(i, x),
    decreases i,
{
    if i == 0 {
        assert(seq![x] + s.drop_first() =~= s.update(0, x));
    } else {
        assert(key(s[0]) != key(x));
        lemma_insert_at_index(s.drop_first(), key, x, i - 1);
        assert(s.drop_first()[i - 1] == s[i]);
        assert(seq![s[0]] + s.drop_first().update(i - 1, x) =~= s.update(i, x));
    }
}

/// Appending a fresh key is what `spec_insert` does.
pub proof fn lemma_insert_fresh<T, K>(s: Seq<T>, key: spec_fn(T) -> K, x: T)
    requires
        forall|j: int| 0 <= j < s.len() ==> key(#[trigger] s[j]) != key(x),
    ensures
        spec_insert(s, key, x) =~= s.push(x),
    decreases s.len(),
{
    if s.len() == 0 {
        assert(seq![x] =~= s.push(x));
    } else {
        lemma_insert_fresh(s.drop_first(), key, x);
        assert(seq![s[0]] + s.drop_first().push(x) =~= s.push(x));
    }
}

/// What an insert leaves findable: the new entry under its own key, and every
/// other key exactly as before.
pub proof fn lemma_find_after_insert<T, K>(
    s: Seq<T>,
    key: spec_fn(T) -> K,
    x: T,
    k: K,
)
    ensures
        spec_find(spec_insert(s, key, x), key, k) == if k == key(x) {
            Some(x)
        } else {
            spec_find(s, key, k)
        },
    decreases s.len(),
{
    reveal_with_fuel(spec_find, 3);
    let t = spec_insert(s, key, x);
    if s.len() == 0 {
        assert(t == seq![x]);
        assert(t.drop_first() =~= Seq::<T>::empty());
    } else if key(s[0]) == key(x) {
        assert(t == seq![x] + s.drop_first());
        assert(t[0] == x);
        assert(t.drop_first() =~= s.drop_first());
    } else {
        assert(t == seq![s[0]] + spec_insert(s.drop_first(), key, x));
        assert(t[0] == s[0]);
        assert(t.drop_first() =~= spec_insert(s.drop_first(), key, x));
        lemma_find_after_insert(s.drop_first(), key, x, k);
    }
}

/// Inserting keeps keys pairwise distinct.
pub proof fn lemma_insert_distinct<T, K>(s: Seq<T>, key: spec_fn(T) -> K, x: T)
    requires
        distinct_keys(s, key),
    ensures
        distinct_keys(spec_insert(s, key, x), key),
{
    if has_key(s, key, key(x)) {
        lemma_find_first_index(s, key, key(x));
        let i = choose|i: int|
            0 <= i < s.len() && s[i] == spec_find(s, key, key(x))->Some_0 && key(s[i]) == key(x)
                && (forall|j: int| 0 <= j < i ==> key(#[trigger] s[j]) != key(x));
        lemma_insert_at_index(s, key, x, i);
        let t = s.update(i, x);
        assert forall|a: int, b: int| 0 <= a < b < t.len() implies key(t[a]) != key(t[b]) by {
            assert(key(s[i]) == key(x));
        }
    } else {
        if s.len() > 0 {
            lemma_find_first_index_absent(s, key, key(x));
        }
        lemma_insert_fresh(s, key, x);
        let t = s.push(x);
        assert forall|a: int, b: int| 0 <= a < b < t.len() implies key(t[a]) != key(t[b]) by {
            if b == s.len() {
                assert(key(t[a]) != key(x)) by {
                    assert(t[a] == s[a]);
                }
            }
        }
    }
}

/// An absent key matches no entry at all.
pub proof fn lemma_find_first_index_absent<T, K>(s: Seq<T>, key: spec_fn(T) -> K, k: K)
    requires
        spec_find(s, key, k) is None,
    ensures
        forall|j: int| 0 <= j < s.len() ==> key(#[trigger] s[j]) != k,
    decreases s.len(),
{
    if s.len() > 0 {
        lemma_find_first_index_absent(s.drop_first(), key, k);
        assert(forall|j: int| 1 <= j < s.len() ==> #[trigger] s[j] == s.drop_first()[j - 1]);
    }
}

/// What a push leaves findable: everything found before, and the new entry
/// under its key when that key was absent.
pub proof fn lemma_find_push<T, K>(s: Seq<T>, key: spec_fn(T) -> K, x: T, k: K)
    ensures
        spec_find(s.push(x), key, k) == if spec_find(s, key, k) is Some {
            spec_find(s, key, k)
        } else if key(x) == k {
            Some(x)
        } else {
            None::<T>
        },
    decreases s.len(),
{
    reveal_with_fuel(spec_find, 3);
    if s.len() == 0 {
        assert(s.push(x) =~= seq![x]);
        assert(seq![x][0] == x);
        assert(seq![x].drop_first() =~= Seq::<T>::empty());
    } else {
        assert(s.push(x)[0] == s[0]);
        assert(s.push(x).drop_first() =~= s.drop_first().push(x));
        lemma_find_push(s.drop_first(), key, x, k);
    }
}

/// Mapping entries to their values commutes with a lookup, when the map
/// preserves keys.
pub proof fn lemma_map_values_find<T, U, K>(
    s: Seq<T>,
    key: spec_fn(T) -> K,
    k: K,
    f: spec_fn(T) -> U,
    vkey: spec_fn(U) -> K,
)
    requires
        forall|t: T| vkey(#[trigger] f(t)) == key(t),
    ensures
        spec_find(s.map_values(f), vkey, k) == match spec_find(s, key, k) {
            Some(t) => Some(f(t)),
            None => None::<U>,
        },
    decreases s.len(),
{
    if s.len() > 0 {
        assert(s.map_values(f)[0] == f(s[0]));
        if key(s[0]) == k {
        } else {
            lemma_map_values_find(s.drop_first(), key, k, f, vkey);
            assert(s.map_values(f).drop_first() =~= s.drop_first().map_values(f));
        }
    }
}

} // verus!
