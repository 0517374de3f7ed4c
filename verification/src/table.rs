//! Small association lists keyed by name, standing in for hash maps.
//!
//! A lookup finds the most recently added entry for a key, so pushing an
//! entry for a key that is already present shadows the older one, as an
//! insert into a map replaces it.
use vstd::prelude::*;

verus! {

/// Index of the last entry whose key is `key`, if any.
pub open spec fn last_index<V>(v: Seq<(String, V)>, key: Seq<char>) -> Option<int>
    decreases v.len(),
{
    if v.len() == 0 {
        None
    } else if v.last().0@ == key {
        Some(v.len() - 1)
    } else {
        last_index(v.drop_last(), key)
    }
}

/// The value most recently bound to `key`.
pub open spec fn lookup<V>(v: Seq<(String, V)>, key: Seq<char>) -> Option<V> {
    match last_index(v, key) {
        Some(i) => Some(v[i].1),
        None => None,
    }
}

pub open spec fn has_key<V>(v: Seq<(String, V)>, key: Seq<char>) -> bool {
    last_index(v, key) is Some
}

pub proof fn lemma_last_index<V>(v: Seq<(String, V)>, key: Seq<char>)
    ensures
        match last_index(v, key) {
            Some(i) => 0 <= i < v.len() && v[i].0@ == key && forall|j: int|
                i < j < v.len() ==> (#[trigger] v[j]).0@ != key,
            None => forall|j: int| 0 <= j < v.len() ==> (#[trigger] v[j]).0@ != key,
        },
    decreases v.len(),
{
    if v.len() > 0 && v.last().0@ != key {
        let w = v.drop_last();
        lemma_last_index(w, key);
        assert forall|j: int| 0 <= j < w.len() implies v[j] == (#[trigger] w[j]) by {}
        match last_index(w, key) {
            Some(i) => {
                assert forall|j: int| i < j < v.len() implies (#[trigger] v[j]).0@ != key by {
                    if j < w.len() {
                        assert(v[j] == w[j]);
                    }
                }
            },
            None => {
                assert forall|j: int| 0 <= j < v.len() implies (#[trigger] v[j]).0@ != key by {
                    if j < w.len() {
                        assert(v[j] == w[j]);
                    }
                }
            },
        }
    }
}

/// `last_index` is determined by where the key occurs.
pub proof fn lemma_last_index_is<V>(v: Seq<(String, V)>, key: Seq<char>, r: Option<int>)
    requires
        match r {
            Some(i) => 0 <= i < v.len() && v[i].0@ == key && forall|j: int|
                i < j < v.len() ==> (#[trigger] v[j]).0@ != key,
            None => forall|j: int| 0 <= j < v.len() ==> (#[trigger] v[j]).0@ != key,
        },
    ensures
        last_index(v, key) == r,
{
    lemma_last_index(v, key);
    match (last_index(v, key), r) {
        (Some(a), Some(b)) => {
            if a < b {
                assert(v[b].0@ == key);
            } else if b < a {
                assert(v[a].0@ == key);
            }
        },
        (Some(a), None) => {
            assert(v[a].0@ == key);
        },
        (None, Some(b)) => {
            assert(v[b].0@ == key);
        },
        (None, None) => {},
    }
}

pub proof fn lemma_last_index_push<V>(v: Seq<(String, V)>, e: (String, V), key: Seq<char>)
    ensures
        last_index(v.push(e), key) == (if e.0@ == key { Some(v.len() as int) } else { last_index(v, key) }),
{
    assert(v.push(e).drop_last() =~= v);
}

/// Finds the last entry with key `key`.
pub fn find<V>(v: &Vec<(String, V)>, key: &String) -> (r: Option<usize>)
    ensures
        r matches Some(i) ==> last_index(v@, key@) == Some(i as int) && i < v@.len(),
        r is None ==> last_index(v@, key@) is None,
{
    let mut i = v.len();
    while i > 0
        invariant
            i <= v.len(),
            forall|j: int| i <= j < v.len() ==> (#[trigger] v@[j]).0@ != key@,
        decreases i,
    {
        if v[i - 1].0 == *key {
            proof {
                lemma_last_index_is(v@, key@, Some((i - 1) as int));
            }
            return Some(i - 1);
        }
        i = i - 1;
    }
    proof {
        lemma_last_index_is(v@, key@, None);
    }
    None
}

/// `v` with `key` bound to `val`: the last entry for `key` replaced in
/// place, or a new entry at the end.
pub open spec fn seq_insert<V>(v: Seq<(String, V)>, key: String, val: V) -> Seq<(String, V)> {
    match last_index(v, key@) {
        Some(i) => v.update(i, (key, val)),
        None => v.push((key, val)),
    }
}

/// Binds `key` to `val`, replacing the value of an existing entry for
/// `key` in place, or adding an entry at the end.
pub fn insert<V>(v: &mut Vec<(String, V)>, key: String, val: V)
    ensures
        final(v)@ == seq_insert(old(v)@, key, val),
        lookup(final(v)@, key@) == Some(val),
        forall|k: Seq<char>| k != key@ ==> lookup(final(v)@, k) == lookup(old(v)@, k),
        forall|k: Seq<char>| has_key(final(v)@, k) <==> (has_key(old(v)@, k) || k == key@),
        has_key(old(v)@, key@) ==> final(v)@.len() == old(v)@.len(),
        !has_key(old(v)@, key@) ==> final(v)@ == old(v)@.push((key, val)),
{
    match find(v, &key) {
        Some(i) => {
            let ghost old_v = v@;
            v.set(i, (key, val));
            proof {
                lemma_last_index(old_v, v@[i as int].0@);
                assert forall|k: Seq<char>| true implies #[trigger] last_index(v@, k) == (if k == v@[i as int].0@ { Some(i as int) } else { last_index(old_v, k) }) by {
                    lemma_last_index(old_v, k);
                    assert forall|j: int| 0 <= j < v@.len() && j != i implies (#[trigger] v@[j]) == old_v[j] by {}
                    if k == v@[i as int].0@ {
                        lemma_last_index_is(v@, k, Some(i as int));
                    } else {
                        lemma_last_index_is(v@, k, last_index(old_v, k));
                        if let Some(idx) = last_index(old_v, k) {
                            assert(old_v[idx].0@ == k);
                            assert(idx != i);
                            assert(v@[idx] == old_v[idx]);
                        }
                    }
                }
                assert forall|k: Seq<char>| k != key@ implies lookup(v@, k) == lookup(old_v, k) by {
                    assert(last_index(v@, k) == last_index(old_v, k));
                    if let Some(idx) = last_index(old_v, k) {
                        lemma_last_index(old_v, k);
                        assert(idx != i);
                        assert(v@[idx] == old_v[idx]);
                    }
                }
            }
        },
        None => {
            let ghost old_v = v@;
            let ghost key_view = key@;
            v.push((key, val));
            proof {
                assert forall|k: Seq<char>| true implies last_index(v@, k) == (if k == key_view { Some(old_v.len() as int) } else { last_index(old_v, k) }) by {
                    lemma_last_index_push(old_v, v@.last(), k);
                    assert(v@ == old_v.push(v@.last()));
                }
                assert forall|k: Seq<char>| k != key_view implies lookup(v@, k) == lookup(old_v, k) by {
                    assert(last_index(v@, k) == last_index(old_v, k));
                    if let Some(idx) = last_index(old_v, k) {
                        lemma_last_index(old_v, k);
                        assert(v@[idx] == old_v[idx]);
                    }
                }
            }
        },
    }
}

/// A key is present exactly when some entry carries it.
pub proof fn lemma_has_key_iff<V>(v: Seq<(String, V)>, k: Seq<char>)
    ensures
        has_key(v, k) <==> exists|j: int| 0 <= j < v.len() && (#[trigger] v[j]).0@ == k,
{
    lemma_last_index(v, k);
    if exists|j: int| 0 <= j < v.len() && (#[trigger] v[j]).0@ == k {
        let j = choose|j: int| 0 <= j < v.len() && (#[trigger] v[j]).0@ == k;
        assert(v[j].0@ == k);
    }
}

/// After binding `key`, the keys present are those present before, and
/// `key`.
pub proof fn lemma_seq_insert_has_key<V>(v: Seq<(String, V)>, key: String, val: V, k: Seq<char>)
    ensures
        has_key(seq_insert(v, key, val), k) == (has_key(v, k) || k == key@),
{
    let w = seq_insert(v, key, val);
    lemma_has_key_iff(v, k);
    lemma_has_key_iff(w, k);
    match last_index(v, key@) {
        Some(i) => {
            lemma_last_index(v, key@);
            assert forall|j: int| 0 <= j < w.len() implies (#[trigger] w[j]).0@ == v[j].0@ by {}
            if has_key(v, k) {
                let j = choose|j: int| 0 <= j < v.len() && (#[trigger] v[j]).0@ == k;
                assert(w[j].0@ == k);
            }
            if has_key(w, k) {
                let j = choose|j: int| 0 <= j < w.len() && (#[trigger] w[j]).0@ == k;
                assert(v[j].0@ == k);
            }
            if k == key@ {
                assert(w[i].0@ == k);
            }
        },
        None => {
            lemma_last_index_push(v, (key, val), k);
        },
    }
}

/// Mapping the values of an association list keeps where each key is.
pub proof fn lemma_last_index_map<V, W>(v: Seq<(String, V)>, f: spec_fn((String, V)) -> (String, W), key: Seq<char>)
    requires
        forall|e: (String, V)| #[trigger] f(e).0 == e.0,
    ensures
        last_index(v.map_values(f), key) == last_index(v, key),
    decreases v.len(),
{
    if v.len() > 0 {
        assert(v.map_values(f).drop_last() =~= v.drop_last().map_values(f));
        assert(v.map_values(f).last() == f(v.last()));
        lemma_last_index_map(v.drop_last(), f, key);
    }
}

} // verus!
