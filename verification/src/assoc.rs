//! Specification-level association sequences: ordered key/value entries with
//! string keys, the model shared by mappings, snapshots and log streams.

use vstd::prelude::*;

verus! {

/// No two entries share a key.
pub open spec fn distinct_keys<T>(es: Seq<(Seq<char>, T)>) -> bool {
    forall|i: int, j: int| 0 <= i < j < es.len() ==> es[i].0 != es[j].0
}

/// The value stored under `k`, if any (first occurrence).
pub open spec fn lookup<T>(es: Seq<(Seq<char>, T)>, k: Seq<char>) -> Option<T>
    decreases es.len(),
{
    if es.len() == 0 {
        None
    } else if es[0].0 == k {
        Some(es[0].1)
    } else {
        lookup(es.drop_first(), k)
    }
}

/// Whether some entry carries the key `k`.
pub open spec fn has_key<T>(es: Seq<(Seq<char>, T)>, k: Seq<char>) -> bool {
    exists|i: int| 0 <= i < es.len() && es[i].0 == k
}

/// Index of the first entry carrying `k` (meaningful only when `has_key`).
pub open spec fn index_of_key<T>(es: Seq<(Seq<char>, T)>, k: Seq<char>) -> int
    decreases es.len(),
{
    if es.len() == 0 {
        0
    } else if es[0].0 == k {
        0
    } else {
        1 + index_of_key(es.drop_first(), k)
    }
}

/// Store `v` under `k`: replace the first entry carrying `k` in place, or
/// append a fresh entry at the end.
pub open spec fn store<T>(es: Seq<(Seq<char>, T)>, k: Seq<char>, v: T) -> Seq<(Seq<char>, T)> {
    if has_key(es, k) {
        es.update(index_of_key(es, k), (k, v))
    } else {
        es.push((k, v))
    }
}

/// `has_key` matches `lookup`.
pub proof fn lemma_lookup_has_key<T>(es: Seq<(Seq<char>, T)>, k: Seq<char>)
    ensures
        has_key(es, k) <==> lookup(es, k) is Some,
    decreases es.len(),
{
    if es.len() > 0 && es[0].0 != k {
        lemma_lookup_has_key(es.drop_first(), k);
        if has_key(es.drop_first(), k) {
            let i = choose|i: int| 0 <= i < es.drop_first().len() && es.drop_first()[i].0 == k;
            assert(es[i + 1].0 == k);
        }
        if has_key(es, k) {
            let i = choose|i: int| 0 <= i < es.len() && es[i].0 == k;
            assert(es.drop_first()[i - 1] == es[i]);
        }
    }
}

/// `index_of_key` names the first entry carrying `k`.
pub proof fn lemma_index_of_key<T>(es: Seq<(Seq<char>, T)>, k: Seq<char>)
    requires
        has_key(es, k),
    ensures
        0 <= index_of_key(es, k) < es.len(),
        es[index_of_key(es, k)].0 == k,
        forall|j: int| 0 <= j < index_of_key(es, k) ==> es[j].0 != k,
        lookup(es, k) == Some(es[index_of_key(es, k)].1),
    decreases es.len(),
{
    if es.len() > 0 && es[0].0 != k {
        assert(has_key(es.drop_first(), k)) by {
            let i = choose|i: int| 0 <= i < es.len() && es[i].0 == k;
            assert(es.drop_first()[i - 1] == es[i]);
        }
        lemma_index_of_key(es.drop_first(), k);
        let d = index_of_key(es.drop_first(), k);
        assert(es[1 + d] == es.drop_first()[d]);
        assert(forall|j: int| 1 <= j < 1 + d ==> es[j] == es.drop_first()[j - 1]);
    }
}

/// A key that no entry carries has no value.
pub proof fn lemma_lookup_none<T>(es: Seq<(Seq<char>, T)>, k: Seq<char>)
    requires
        forall|i: int| 0 <= i < es.len() ==> (#[trigger] es[i]).0 != k,
    ensures
        lookup(es, k) is None,
{
    lemma_lookup_has_key(es, k);
}

/// The first entry carrying `k` decides `lookup`.
pub proof fn lemma_lookup_at<T>(es: Seq<(Seq<char>, T)>, k: Seq<char>, i: int)
    requires
        0 <= i < es.len(),
        es[i].0 == k,
        forall|j: int| 0 <= j < i ==> (#[trigger] es[j]).0 != k,
    ensures
        lookup(es, k) == Some(es[i].1),
        index_of_key(es, k) == i,
    decreases es.len(),
{
    if i > 0 {
        assert(es.drop_first()[i - 1] == es[i]);
        assert(forall|j: int| 0 <= j < i - 1 ==> es.drop_first()[j] == es[j + 1]);
        lemma_lookup_at(es.drop_first(), k, i - 1);
    }
}

/// Appending an entry with a different key leaves `lookup` unchanged.
proof fn lemma_lookup_push<T>(es: Seq<(Seq<char>, T)>, e: (Seq<char>, T), k: Seq<char>)
    requires
        e.0 != k,
    ensures
        lookup(es.push(e), k) == lookup(es, k),
    decreases es.len(),
{
    if es.len() == 0 {
        reveal_with_fuel(lookup, 2);
        assert(es.push(e)[0] == e);
        assert(es.push(e).drop_first() =~= Seq::<(Seq<char>, T)>::empty());
        assert(lookup(es.push(e), k) is None && lookup(es, k) is None);
    } else {
        assert(es.push(e)[0] == es[0]);
        assert(es.push(e).drop_first() =~= es.drop_first().push(e));
        lemma_lookup_push(es.drop_first(), e, k);
        if es[0].0 == k {
            assert(lookup(es.push(e), k) == Some(es[0].1));
            assert(lookup(es, k) == Some(es[0].1));
        } else {
            assert(lookup(es.push(e), k) == lookup(es.drop_first().push(e), k));
            assert(lookup(es, k) == lookup(es.drop_first(), k));
        }
    }
}

/// Updating an entry whose old and new keys both differ from `k` leaves
/// `lookup` of `k` unchanged.
proof fn lemma_lookup_update<T>(es: Seq<(Seq<char>, T)>, d: int, e: (Seq<char>, T), k: Seq<char>)
    requires
        0 <= d < es.len(),
        es[d].0 != k,
        e.0 != k,
    ensures
        lookup(es.update(d, e), k) == lookup(es, k),
    decreases es.len(),
{
    let r = es.update(d, e);
    if d == 0 {
        assert(r.drop_first() =~= es.drop_first());
    } else {
        assert(r[0] == es[0]);
        if es[0].0 != k {
            assert(r.drop_first() =~= es.drop_first().update(d - 1, e));
            lemma_lookup_update(es.drop_first(), d - 1, e, k);
        }
    }
}

/// Storing keeps keys distinct and changes exactly the entry for `k`.
pub proof fn lemma_store<T>(es: Seq<(Seq<char>, T)>, k: Seq<char>, v: T)
    requires
        distinct_keys(es),
    ensures
        distinct_keys(store(es, k, v)),
        lookup(store(es, k, v), k) == Some(v),
        forall|k2: Seq<char>| k2 != k ==> lookup(store(es, k, v), k2) == lookup(es, k2),
        has_key(es, k) ==> store(es, k, v).len() == es.len(),
        !has_key(es, k) ==> store(es, k, v).len() == es.len() + 1,
{
    let r = store(es, k, v);
    if has_key(es, k) {
        lemma_index_of_key(es, k);
        let d = index_of_key(es, k);
        assert(distinct_keys(r)) by {
            assert forall|i: int, j: int| 0 <= i < j < r.len() implies r[i].0 != r[j].0 by {
                if i != d && j != d {
                    assert(es[i].0 != es[j].0);
                } else if i == d {
                    assert(es[j].0 != k);
                } else {
                    assert(es[i].0 != k);
                }
            }
        }
        assert(forall|j: int| 0 <= j < d ==> (#[trigger] r[j]).0 != k);
        lemma_lookup_at(r, k, d);
        assert forall|k2: Seq<char>| k2 != k implies lookup(r, k2) == lookup(es, k2) by {
            lemma_lookup_update(es, d, (k, v), k2);
        }
    } else {
        assert(forall|i: int| 0 <= i < es.len() ==> (#[trigger] es[i]).0 != k);
        assert(distinct_keys(r)) by {
            assert forall|i: int, j: int| 0 <= i < j < r.len() implies r[i].0 != r[j].0 by {
                if j < es.len() {
                    assert(es[i].0 != es[j].0);
                } else {
                    assert(es[i].0 != k);
                }
            }
        }
        assert(forall|j: int| 0 <= j < es.len() ==> (#[trigger] r[j]).0 != k);
        lemma_lookup_at(r, k, es.len() as int);
        assert forall|k2: Seq<char>| k2 != k implies lookup(r, k2) == lookup(es, k2) by {
            lemma_lookup_push(es, (k, v), k2);
        }
    }
}


/// Remove the first entry carrying `k`, if any.
pub open spec fn remove_key<T>(es: Seq<(Seq<char>, T)>, k: Seq<char>) -> Seq<(Seq<char>, T)> {
    if has_key(es, k) {
        es.remove(index_of_key(es, k))
    } else {
        es
    }
}

/// Removing an entry whose key differs from `k` leaves `lookup` of `k`
/// unchanged.
proof fn lemma_lookup_remove<T>(es: Seq<(Seq<char>, T)>, d: int, k: Seq<char>)
    requires
        0 <= d < es.len(),
        es[d].0 != k,
    ensures
        lookup(es.remove(d), k) == lookup(es, k),
    decreases es.len(),
{
    let r = es.remove(d);
    if d == 0 {
        assert(r =~= es.drop_first());
    } else {
        assert(r[0] == es[0]);
        if es[0].0 != k {
            assert(r.drop_first() =~= es.drop_first().remove(d - 1));
            lemma_lookup_remove(es.drop_first(), d - 1, k);
        }
    }
}

/// Removing keeps keys distinct and erases exactly the entry for `k`.
pub proof fn lemma_remove_key<T>(es: Seq<(Seq<char>, T)>, k: Seq<char>)
    requires
        distinct_keys(es),
    ensures
        distinct_keys(remove_key(es, k)),
        lookup(remove_key(es, k), k) is None,
        forall|k2: Seq<char>| k2 != k ==> lookup(remove_key(es, k), k2) == lookup(es, k2),
        has_key(es, k) ==> remove_key(es, k).len() == es.len() - 1,
        !has_key(es, k) ==> remove_key(es, k) == es,
{
    lemma_lookup_has_key(es, k);
    if has_key(es, k) {
        lemma_index_of_key(es, k);
        let d = index_of_key(es, k);
        let r = es.remove(d);
        assert forall|i: int, j: int| 0 <= i < j < r.len() implies r[i].0 != r[j].0 by {
            let i0 = if i < d { i } else { i + 1 };
            let j0 = if j < d { j } else { j + 1 };
            assert(r[i] == es[i0] && r[j] == es[j0]);
            assert(es[i0].0 != es[j0].0);
        }
        assert forall|i: int| 0 <= i < r.len() implies (#[trigger] r[i]).0 != k by {
            let i0 = if i < d { i } else { i + 1 };
            assert(r[i] == es[i0]);
            if i0 != d {
                assert(es[i0].0 != es[d].0);
            }
        }
        lemma_lookup_none(r, k);
        assert forall|k2: Seq<char>| k2 != k implies lookup(r, k2) == lookup(es, k2) by {
            lemma_lookup_remove(es, d, k2);
        }
    } else {
        lemma_lookup_has_key(es, k);
    }
}

} // verus!
