//! Keyed lists: a `Vec` of `(String, V)` pairs in which no key occurs twice,
//! standing in for a string-keyed hash map.
use vstd::prelude::*;

verus! {

/// The list with every key taken by its view.
pub open spec fn entries_view<V>(s: Seq<(String, V)>) -> Seq<(Seq<char>, V)> {
    s.map_values(|p: (String, V)| (p.0@, p.1))
}

/// No key occurs twice.
pub open spec fn unique_keys<V>(s: Seq<(Seq<char>, V)>) -> bool {
    forall|i: int, j: int| 0 <= i < s.len() && 0 <= j < s.len() && i != j ==> #[trigger] s[i].0 != #[trigger] s[j].0
}

/// Some entry has key `k`.
pub open spec fn has_key<V>(s: Seq<(Seq<char>, V)>, k: Seq<char>) -> bool {
    exists|i: int| 0 <= i < s.len() && #[trigger] s[i].0 == k
}

/// The position of key `k` (meaningful where `has_key(s, k)`).
pub open spec fn index_of<V>(s: Seq<(Seq<char>, V)>, k: Seq<char>) -> int {
    choose|i: int| 0 <= i < s.len() && #[trigger] s[i].0 == k
}

/// The value stored under key `k` (meaningful where `has_key(s, k)`).
pub open spec fn value_of<V>(s: Seq<(Seq<char>, V)>, k: Seq<char>) -> V {
    s[index_of(s, k)].1
}

/// The value under `k`, or `None`.
pub open spec fn lookup<V>(s: Seq<(Seq<char>, V)>, k: Seq<char>) -> Option<V> {
    if has_key(s, k) { Some(value_of(s, k)) } else { None }
}

/// What a map insert does: the value under an existing key is replaced in
/// place, a new key goes at the end.
pub open spec fn insert_entry<V>(s: Seq<(Seq<char>, V)>, k: Seq<char>, v: V) -> Seq<(Seq<char>, V)> {
    if has_key(s, k) { s.update(index_of(s, k), (k, v)) } else { s.push((k, v)) }
}

/// What a map remove does: the entry under `k`, if any, leaves.
pub open spec fn remove_entry<V>(s: Seq<(Seq<char>, V)>, k: Seq<char>) -> Seq<(Seq<char>, V)> {
    if has_key(s, k) { s.remove(index_of(s, k)) } else { s }
}

/// In a list without repeated keys, the entry found at `i` is the one under its key.
pub proof fn lemma_unique_index<V>(s: Seq<(Seq<char>, V)>, i: int)
    requires
        unique_keys(s),
        0 <= i < s.len(),
    ensures
        has_key(s, s[i].0),
        index_of(s, s[i].0) == i,
        value_of(s, s[i].0) == s[i].1,
        lookup(s, s[i].0) == Some(s[i].1),
{
    let k = s[i].0;
    assert(has_key(s, k));
    let j = index_of(s, k);
    assert(s[j].0 == k);
}

/// Inserting under a key keeps the keys unique.
pub proof fn lemma_insert_keeps_unique<V>(s: Seq<(Seq<char>, V)>, k: Seq<char>, v: V)
    requires
        unique_keys(s),
    ensures
        unique_keys(insert_entry(s, k, v)),
        lookup(insert_entry(s, k, v), k) == Some(v),
        forall|k2: Seq<char>| k2 != k ==> lookup(insert_entry(s, k, v), k2) == #[trigger] lookup(s, k2),
{
    let t = insert_entry(s, k, v);
    if has_key(s, k) {
        let i = index_of(s, k);
        assert(s[i].0 == k);
        assert forall|a: int, b: int| 0 <= a < t.len() && 0 <= b < t.len() && a != b implies #[trigger] t[a].0 != #[trigger] t[b].0 by {
            if a != i && b != i {
                assert(t[a] == s[a] && t[b] == s[b]);
            } else if a == i {
                assert(s[b].0 != s[i].0);
            } else {
                assert(s[a].0 != s[i].0);
            }
        }
        lemma_unique_index(t, i);
        assert forall|k2: Seq<char>| k2 != k implies lookup(t, k2) == #[trigger] lookup(s, k2) by {
            if has_key(s, k2) {
                let j = index_of(s, k2);
                assert(j != i);
                assert(t[j] == s[j]);
                lemma_unique_index(s, j);
                lemma_unique_index(t, j);
            }
            if has_key(t, k2) {
                let j = index_of(t, k2);
                assert(j != i);
                assert(t[j] == s[j]);
            }
        }
    } else {
        let n = s.len() as int;
        assert forall|a: int, b: int| 0 <= a < t.len() && 0 <= b < t.len() && a != b implies #[trigger] t[a].0 != #[trigger] t[b].0 by {
            if a != n && b != n {
                assert(t[a] == s[a] && t[b] == s[b]);
            } else if a == n {
                assert(t[b] == s[b]);
                assert(s[b].0 != k);
            } else {
                assert(t[a] == s[a]);
                assert(s[a].0 != k);
            }
        }
        lemma_unique_index(t, n);
        assert forall|k2: Seq<char>| k2 != k implies lookup(t, k2) == #[trigger] lookup(s, k2) by {
            if has_key(s, k2) {
                let j = index_of(s, k2);
                assert(t[j] == s[j]);
                lemma_unique_index(s, j);
                lemma_unique_index(t, j);
            }
            if has_key(t, k2) {
                let j = index_of(t, k2);
                assert(j != n);
                assert(t[j] == s[j]);
            }
        }
    }
}

/// Removing under a key keeps the keys unique and forgets that key only.
pub proof fn lemma_remove_keeps_unique<V>(s: Seq<(Seq<char>, V)>, k: Seq<char>)
    requires
        unique_keys(s),
    ensures
        unique_keys(remove_entry(s, k)),
        lookup(remove_entry(s, k), k) is None,
        forall|k2: Seq<char>| k2 != k ==> lookup(remove_entry(s, k), k2) == #[trigger] lookup(s, k2),
{
    let t = remove_entry(s, k);
    if has_key(s, k) {
        let i = index_of(s, k);
        assert(s[i].0 == k);
        assert forall|a: int, b: int| 0 <= a < t.len() && 0 <= b < t.len() && a != b implies #[trigger] t[a].0 != #[trigger] t[b].0 by {
            let sa = if a < i { a } else { a + 1 };
            let sb = if b < i { b } else { b + 1 };
            assert(t[a] == s[sa] && t[b] == s[sb]);
        }
        if has_key(t, k) {
            let j = index_of(t, k);
            let sj = if j < i { j } else { j + 1 };
            assert(t[j] == s[sj]);
        }
        assert forall|k2: Seq<char>| k2 != k implies lookup(t, k2) == #[trigger] lookup(s, k2) by {
            if has_key(s, k2) {
                let j = index_of(s, k2);
                assert(j != i);
                let tj = if j < i { j } else { j - 1 };
                assert(t[tj] == s[j]);
                lemma_unique_index(s, j);
                lemma_unique_index(t, tj);
            }
            if has_key(t, k2) {
                let j = index_of(t, k2);
                let sj = if j < i { j } else { j + 1 };
                assert(t[j] == s[sj]);
            }
        }
    }
}

/// Finds the position of `key` in a keyed list.
pub fn find_key<V>(entries: &Vec<(String, V)>, key: &str) -> (r: Option<usize>)
    ensures
        match r {
            Some(i) => i < entries@.len() && entries@[i as int].0@ == key@,
            None => !has_key(entries_view(entries@), key@),
        },
{
    let wanted = key.to_owned();
    let mut i: usize = 0;
    while i < entries.len()
        invariant
            i <= entries@.len(),
            wanted@ == key@,
            forall|j: int| 0 <= j < i ==> entries@[j].0@ != key@,
        decreases entries@.len() - i,
    {
        if entries[i].0 == wanted {
            return Some(i);
        }
        i = i + 1;
    }
    proof {
        let v = entries_view(entries@);
        if has_key(v, key@) {
            let j = choose|j: int| 0 <= j < v.len() && #[trigger] v[j].0 == key@;
            assert(entries@[j].0@ == key@);
        }
    }
    None
}

} // verus!
