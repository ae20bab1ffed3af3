//! Lists of keyed entries: the map that a list with distinct keys stands
//! for, and how it changes as entries are set, added and removed.

use vstd::prelude::*;

verus! {

/// Whether no key occurs twice among the entries.
pub open spec fn distinct_keys<V>(es: Seq<(Seq<char>, V)>) -> bool {
    forall|i: int, j: int| 0 <= i < es.len() && 0 <= j < es.len() && i != j ==> es[i].0 != es[j].0
}

/// Whether some entry has key `k`.
pub open spec fn has_key<V>(es: Seq<(Seq<char>, V)>, k: Seq<char>) -> bool {
    exists|i: int| 0 <= i < es.len() && es[i].0 == k
}

/// The position of an entry with key `k` (meaningful when `has_key(es, k)`).
pub open spec fn key_index<V>(es: Seq<(Seq<char>, V)>, k: Seq<char>) -> int {
    choose|i: int| 0 <= i < es.len() && es[i].0 == k
}

/// The map that a list of entries with distinct keys stands for.
pub open spec fn as_map<V>(es: Seq<(Seq<char>, V)>) -> Map<Seq<char>, V> {
    Map::new(|k: Seq<char>| has_key(es, k), |k: Seq<char>| es[key_index(es, k)].1)
}

/// The entries after key `k` is set to `v`: an entry with that key keeps its
/// place and takes the new value; otherwise the new entry goes last.
pub open spec fn set_entry<V>(es: Seq<(Seq<char>, V)>, k: Seq<char>, v: V) -> Seq<(Seq<char>, V)> {
    if has_key(es, k) {
        es.update(key_index(es, k), (k, v))
    } else {
        es.push((k, v))
    }
}

/// The entries after the entry with key `k`, if any, is taken out; the others
/// keep their order.
pub open spec fn remove_entry<V>(es: Seq<(Seq<char>, V)>, k: Seq<char>) -> Seq<(Seq<char>, V)> {
    if has_key(es, k) {
        es.remove(key_index(es, k))
    } else {
        es
    }
}

/// In a list with distinct keys, the position of a key is the one that holds it.
pub proof fn lemma_key_index<V>(es: Seq<(Seq<char>, V)>, i: int)
    requires
        distinct_keys(es),
        0 <= i < es.len(),
    ensures
        has_key(es, es[i].0),
        key_index(es, es[i].0) == i,
{
    assert(has_key(es, es[i].0));
}

/// The value at a position of a list with distinct keys is the map's value
/// for that position's key.
pub proof fn lemma_as_map_at<V>(es: Seq<(Seq<char>, V)>, i: int)
    requires
        distinct_keys(es),
        0 <= i < es.len(),
    ensures
        as_map(es).contains_key(es[i].0),
        as_map(es)[es[i].0] == es[i].1,
{
    assert(has_key(es, es[i].0));
    let j = key_index(es, es[i].0);
    assert(j == i);
}

/// Setting the value at a position sets the value of that position's key.
pub proof fn lemma_as_map_update<V>(es: Seq<(Seq<char>, V)>, i: int, v: V)
    requires
        distinct_keys(es),
        0 <= i < es.len(),
    ensures
        distinct_keys(es.update(i, (es[i].0, v))),
        as_map(es.update(i, (es[i].0, v))) == as_map(es).insert(es[i].0, v),
{
    let k = es[i].0;
    let fs = es.update(i, (k, v));
    assert forall|a: int, b: int| 0 <= a < fs.len() && 0 <= b < fs.len() && a != b implies fs[a].0 != fs[b].0 by {
        assert(fs[a].0 == es[a].0);
        assert(fs[b].0 == es[b].0);
    }
    assert forall|q: Seq<char>| has_key(fs, q) <==> has_key(es, q) by {
        if has_key(fs, q) {
            let j = choose|j: int| 0 <= j < fs.len() && fs[j].0 == q;
            assert(es[j].0 == q);
        }
        if has_key(es, q) {
            let j = choose|j: int| 0 <= j < es.len() && es[j].0 == q;
            assert(fs[j].0 == q);
        }
    }
    assert forall|q: Seq<char>| #[trigger] has_key(fs, q) implies as_map(fs)[q] == as_map(es).insert(k, v)[q] by {
        let a = key_index(fs, q);
        let b = key_index(es, q);
        assert(fs[a].0 == es[a].0);
        assert(a == b);
        if q == k {
            assert(a == i);
        }
    }
    assert(as_map(fs) =~= as_map(es).insert(k, v));
}

/// Adding an entry with a new key adds that key to the map.
pub proof fn lemma_as_map_push<V>(es: Seq<(Seq<char>, V)>, k: Seq<char>, v: V)
    requires
        distinct_keys(es),
        !has_key(es, k),
    ensures
        distinct_keys(es.push((k, v))),
        as_map(es.push((k, v))) == as_map(es).insert(k, v),
{
    let fs = es.push((k, v));
    assert forall|a: int, b: int| 0 <= a < fs.len() && 0 <= b < fs.len() && a != b implies fs[a].0 != fs[b].0 by {
        if a < es.len() && b < es.len() {
            assert(fs[a] == es[a] && fs[b] == es[b]);
        } else if a < es.len() {
            assert(fs[a] == es[a]);
        } else if b < es.len() {
            assert(fs[b] == es[b]);
        }
    }
    assert forall|q: Seq<char>| has_key(fs, q) <==> (has_key(es, q) || q == k) by {
        if has_key(fs, q) {
            let j = choose|j: int| 0 <= j < fs.len() && fs[j].0 == q;
            if j < es.len() {
                assert(es[j].0 == q);
            }
        }
        if has_key(es, q) {
            let j = choose|j: int| 0 <= j < es.len() && es[j].0 == q;
            assert(fs[j].0 == q);
        }
        if q == k {
            assert(fs[es.len() as int].0 == q);
        }
    }
    assert forall|q: Seq<char>| #[trigger] has_key(fs, q) implies as_map(fs)[q] == as_map(es).insert(k, v)[q] by {
        let a = key_index(fs, q);
        if q == k {
            assert(a == es.len());
        } else {
            let b = key_index(es, q);
            assert(fs[b].0 == q);
            assert(a == b);
        }
    }
    assert(as_map(fs) =~= as_map(es).insert(k, v));
}

/// Removing the entry at a position removes that position's key from the map.
pub proof fn lemma_as_map_remove<V>(es: Seq<(Seq<char>, V)>, i: int)
    requires
        distinct_keys(es),
        0 <= i < es.len(),
    ensures
        distinct_keys(es.remove(i)),
        as_map(es.remove(i)) == as_map(es).remove(es[i].0),
{
    let k = es[i].0;
    let fs = es.remove(i);
    assert forall|j: int| 0 <= j < fs.len() implies #[trigger] fs[j] == es[if j < i { j } else { j + 1 }] by {}
    assert forall|a: int, b: int| 0 <= a < fs.len() && 0 <= b < fs.len() && a != b implies fs[a].0 != fs[b].0 by {
        assert(fs[a] == es[if a < i { a } else { a + 1 }]);
        assert(fs[b] == es[if b < i { b } else { b + 1 }]);
    }
    assert forall|q: Seq<char>| has_key(fs, q) <==> (has_key(es, q) && q != k) by {
        if has_key(fs, q) {
            let j = choose|j: int| 0 <= j < fs.len() && fs[j].0 == q;
            let jj = if j < i { j } else { j + 1 };
            assert(fs[j] == es[jj]);
            assert(es[jj].0 == q);
        }
        if has_key(es, q) && q != k {
            let j = choose|j: int| 0 <= j < es.len() && es[j].0 == q;
            assert(j != i);
            let jj = if j < i { j } else { j - 1 };
            assert(fs[jj] == es[j]);
        }
    }
    assert forall|q: Seq<char>| #[trigger] has_key(fs, q) implies as_map(fs)[q] == as_map(es)[q] by {
        let a = key_index(fs, q);
        let aa = if a < i { a } else { a + 1 };
        assert(fs[a] == es[aa]);
        let b = key_index(es, q);
        assert(aa == b);
    }
    assert(as_map(fs) =~= as_map(es).remove(k));
}


} // verus!
