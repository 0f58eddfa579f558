//! Association lists: sequences of (key, value) entries looked up by key,
//! with the insert / remove behaviour of an `IndexMap`.

use vstd::prelude::*;

verus! {

/// Position of the first entry with key `k`, or -1.
pub open spec fn key_pos<V>(es: Seq<(Seq<char>, V)>, k: Seq<char>) -> int
    decreases es.len(),
{
    if es.len() == 0 {
        -1
    } else if key_pos(es.drop_last(), k) >= 0 {
        key_pos(es.drop_last(), k)
    } else if es.last().0 == k {
        es.len() - 1
    } else {
        -1
    }
}

/// Whether some entry has key `k`.
pub open spec fn has_key<V>(es: Seq<(Seq<char>, V)>, k: Seq<char>) -> bool {
    key_pos(es, k) >= 0
}

/// The value held under `k`.
pub open spec fn lookup<V>(es: Seq<(Seq<char>, V)>, k: Seq<char>) -> Option<V> {
    if has_key(es, k) {
        Some(es[key_pos(es, k)].1)
    } else {
        None
    }
}

/// `IndexMap::insert`: replace the value in place when the key is present,
/// else append the entry.
pub open spec fn insert_entry<V>(es: Seq<(Seq<char>, V)>, k: Seq<char>, v: V) -> Seq<
    (Seq<char>, V),
> {
    if has_key(es, k) {
        es.update(key_pos(es, k), (k, v))
    } else {
        es.push((k, v))
    }
}

/// `IndexMap::shift_remove`: drop the entry with key `k`, keeping the order of the rest.
pub open spec fn remove_entry<V>(es: Seq<(Seq<char>, V)>, k: Seq<char>) -> Seq<(Seq<char>, V)> {
    if has_key(es, k) {
        es.remove(key_pos(es, k))
    } else {
        es
    }
}

/// Inserting the entries `extra` in order, as `IndexMap::insert` does.
pub open spec fn insert_all<V>(es: Seq<(Seq<char>, V)>, extra: Seq<(Seq<char>, V)>) -> Seq<
    (Seq<char>, V),
>
    decreases extra.len(),
{
    if extra.len() == 0 {
        es
    } else {
        insert_entry(insert_all(es, extra.drop_last()), extra.last().0, extra.last().1)
    }
}

/// No two entries share a key.
pub open spec fn keys_unique<V>(es: Seq<(Seq<char>, V)>) -> bool {
    forall|i: int, j: int| 0 <= i < j < es.len() ==> es[i].0 != es[j].0
}

/// `key_pos` finds the first entry with the key, and only such.
pub proof fn lemma_key_pos<V>(es: Seq<(Seq<char>, V)>, k: Seq<char>)
    ensures
        -1 <= key_pos(es, k) < es.len(),
        key_pos(es, k) >= 0 ==> es[key_pos(es, k)].0 == k,
        forall|j: int| 0 <= j < es.len() && (key_pos(es, k) < 0 || j < key_pos(es, k)) ==> es[j].0
            != k,
    decreases es.len(),
{
    if es.len() > 0 {
        lemma_key_pos(es.drop_last(), k);
        assert forall|j: int|
            0 <= j < es.len() && (key_pos(es, k) < 0 || j < key_pos(es, k)) implies es[j].0
            != k by {
            if j < es.len() - 1 {
                assert(es[j] == es.drop_last()[j]);
            }
        }
    }
}

/// In a table whose keys are unique, an entry with key `k` is at `key_pos`.
pub proof fn lemma_key_pos_unique<V>(es: Seq<(Seq<char>, V)>, k: Seq<char>, i: int)
    requires
        keys_unique(es),
        0 <= i < es.len(),
        es[i].0 == k,
    ensures
        key_pos(es, k) == i,
{
    lemma_key_pos(es, k);
}

/// Appending an entry under a key that is not present.
pub proof fn lemma_insert_fresh<V>(es: Seq<(Seq<char>, V)>, k: Seq<char>, v: V)
    requires
        forall|j: int| 0 <= j < es.len() ==> es[j].0 != k,
    ensures
        insert_entry(es, k, v) == es.push((k, v)),
        !has_key(es, k),
{
    lemma_key_pos(es, k);
}

/// A read after a write: once `k` is set to `v`, looking `k` up gives `v`,
/// and every other key keeps its value.
pub proof fn law_lookup_after_insert<V>(es: Seq<(Seq<char>, V)>, k: Seq<char>, v: V, other: Seq<char>)
    ensures
        lookup(insert_entry(es, k, v), k) == Some(v),
        other != k ==> lookup(insert_entry(es, k, v), other) == lookup(es, other),
{
    lemma_key_pos(es, k);
    lemma_key_pos(es, other);
    let es2 = insert_entry(es, k, v);
    lemma_key_pos(es2, k);
    lemma_key_pos(es2, other);
    if has_key(es, k) {
        let p = key_pos(es, k);
        assert(es2[p].0 == k);
        assert(key_pos(es2, k) == p) by {
            if key_pos(es2, k) < 0 || key_pos(es2, k) > p {
            } else if key_pos(es2, k) < p {
                assert(es2[key_pos(es2, k)] == es[key_pos(es2, k)]);
            }
        }
        if other != k && has_key(es, other) {
            let q = key_pos(es, other);
            assert(es2[q] == es[q]);
            assert(key_pos(es2, other) == q) by {
                if key_pos(es2, other) < 0 {
                } else if key_pos(es2, other) < q {
                    assert(es2[key_pos(es2, other)] == es[key_pos(es2, other)]);
                } else if key_pos(es2, other) > q {
                }
            }
        } else if other != k {
            assert(!has_key(es2, other)) by {
                if has_key(es2, other) {
                    let q = key_pos(es2, other);
                    assert(es2[q] == es[q]);
                }
            }
        }
    } else {
        assert(es2[es.len() as int].0 == k);
        assert(key_pos(es2, k) == es.len() as int) by {
            if 0 <= key_pos(es2, k) < es.len() {
                assert(es2[key_pos(es2, k)] == es[key_pos(es2, k)]);
            }
        }
        if other != k && has_key(es, other) {
            let q = key_pos(es, other);
            assert(es2[q] == es[q]);
            assert(key_pos(es2, other) == q) by {
                if key_pos(es2, other) < 0 {
                } else if key_pos(es2, other) < q {
                    assert(es2[key_pos(es2, other)] == es[key_pos(es2, other)]);
                }
            }
        } else if other != k {
            assert(!has_key(es2, other)) by {
                if has_key(es2, other) {
                    let q = key_pos(es2, other);
                    if q < es.len() {
                        assert(es2[q] == es[q]);
                    }
                }
            }
        }
    }
}

/// After removing `k` from a table whose keys are unique, `k` is gone and
/// every other key keeps its value.
pub proof fn law_lookup_after_remove<V>(es: Seq<(Seq<char>, V)>, k: Seq<char>, other: Seq<char>)
    requires
        keys_unique(es),
        other != k,
    ensures
        lookup(remove_entry(es, k), k) is None,
        lookup(remove_entry(es, k), other) == lookup(es, other),
        keys_unique(remove_entry(es, k)),
{
    lemma_key_pos(es, k);
    lemma_key_pos(es, other);
    let es2 = remove_entry(es, k);
    lemma_key_pos(es2, k);
    lemma_key_pos(es2, other);
    if has_key(es, k) {
        let p = key_pos(es, k);
        assert(forall|j: int| 0 <= j < es2.len() ==> #[trigger] es2[j] == if j < p {
            es[j]
        } else {
            es[j + 1]
        });
        assert(!has_key(es2, k)) by {
            if has_key(es2, k) {
                let q = key_pos(es2, k);
                if q >= p {
                    assert(es[q + 1].0 == k);
                }
            }
        }
        if has_key(es, other) {
            let q = key_pos(es, other);
            let q2 = if q < p {
                q
            } else {
                q - 1
            };
            assert(es2[q2] == es[q]);
            lemma_key_pos_unique(es, other, q);
            assert(keys_unique(es2)) by {
                assert forall|i: int, j: int| 0 <= i < j < es2.len() implies es2[i].0 != es2[j].0 by {
                    let i1 = if i < p {
                        i
                    } else {
                        i + 1
                    };
                    let j1 = if j < p {
                        j
                    } else {
                        j + 1
                    };
                    assert(es2[i] == es[i1]);
                    assert(es2[j] == es[j1]);
                }
            }
            lemma_key_pos_unique(es2, other, q2);
        } else {
            assert(!has_key(es2, other)) by {
                if has_key(es2, other) {
                    let q = key_pos(es2, other);
                    if q < p {
                        assert(es2[q] == es[q]);
                    } else {
                        assert(es2[q] == es[q + 1]);
                    }
                }
            }
        }
        assert(keys_unique(es2)) by {
            assert forall|i: int, j: int| 0 <= i < j < es2.len() implies es2[i].0 != es2[j].0 by {
                let i1 = if i < p {
                    i
                } else {
                    i + 1
                };
                let j1 = if j < p {
                    j
                } else {
                    j + 1
                };
                assert(es2[i] == es[i1]);
                assert(es2[j] == es[j1]);
            }
        }
    }
}

/// Inserting entries whose keys are all different, into an empty table, keeps them in order.
pub proof fn lemma_insert_all_unique<V>(s: Seq<(Seq<char>, V)>)
    requires
        keys_unique(s),
    ensures
        insert_all(Seq::<(Seq<char>, V)>::empty(), s) == s,
    decreases s.len(),
{
    if s.len() > 0 {
        let s1 = s.drop_last();
        assert(keys_unique(s1));
        lemma_insert_all_unique(s1);
        lemma_insert_fresh(s1, s.last().0, s.last().1);
        assert(s1.push(s.last()) =~= s);
    }
}

/// `insert_entry` keeps keys unique, and the keys after it are the keys
/// before it and `k`.
pub proof fn lemma_insert_unique<V>(es: Seq<(Seq<char>, V)>, k: Seq<char>, v: V)
    requires
        keys_unique(es),
    ensures
        keys_unique(insert_entry(es, k, v)),
        forall|j: Seq<char>| #[trigger] has_key(insert_entry(es, k, v), j) <==> (has_key(es, j) || j == k),
{
    lemma_key_pos(es, k);
    let es2 = insert_entry(es, k, v);
    assert forall|j: Seq<char>| #[trigger] has_key(es2, j) <==> (has_key(es, j) || j == k) by {
        lemma_key_pos(es, j);
        lemma_key_pos(es2, j);
        if has_key(es2, j) {
            let q = key_pos(es2, j);
            if j != k {
                if has_key(es, k) {
                    assert(es2[q] == es[q]);
                } else if q < es.len() {
                    assert(es2[q] == es[q]);
                }
            }
        }
        if has_key(es, j) {
            let q = key_pos(es, j);
            if j != k {
                assert(es2[q] == es[q]);
            }
        }
        if j == k {
            if has_key(es, k) {
                assert(es2[key_pos(es, k)].0 == k);
            } else {
                assert(es2[es.len() as int].0 == k);
            }
        }
    }
    assert forall|a: int, b: int| 0 <= a < b < es2.len() implies es2[a].0 != es2[b].0 by {
        if has_key(es, k) {
            let p = key_pos(es, k);
            if a != p && b != p {
                assert(es2[a] == es[a] && es2[b] == es[b]);
            } else if a == p {
                assert(es2[b] == es[b]);
                assert(es[p].0 == k);
            } else {
                assert(es2[a] == es[a]);
                assert(es[p].0 == k);
            }
        } else {
            if b == es.len() {
                assert(es2[a] == es[a]);
            } else {
                assert(es2[a] == es[a] && es2[b] == es[b]);
            }
        }
    }
}

} // verus!
