//! Maps held as lists of rows with distinct keys.

use vstd::prelude::*;

verus! {

/// The place of the first `k` in `keys`, or the length of `keys`.
pub open spec fn place<K>(keys: Seq<K>, k: K) -> int
    decreases keys.len(),
{
    if keys.len() == 0 || keys[0] == k {
        0
    } else {
        1 + place(keys.drop_first(), k)
    }
}

/// The map from each key to the value in the same place.
pub open spec fn as_map<K, V>(keys: Seq<K>, vals: Seq<V>) -> Map<K, V> {
    Map::new(|k: K| place(keys, k) < keys.len(), |k: K| vals[place(keys, k)])
}

/// What [`place`] finds.
pub proof fn lemma_place<K>(keys: Seq<K>, k: K)
    ensures
        0 <= place(keys, k) <= keys.len(),
        forall|i: int| 0 <= i < place(keys, k) ==> keys[i] != k,
        place(keys, k) < keys.len() ==> keys[place(keys, k)] == k,
    decreases keys.len(),
{
    if keys.len() > 0 && keys[0] != k {
        lemma_place(keys.drop_first(), k);
        assert forall|i: int| 0 <= i < place(keys, k) implies keys[i] != k by {
            if i > 0 {
                assert(keys[i] == keys.drop_first()[i - 1]);
            }
        }
    }
}

/// The first `k` is where all before it differ from `k`.
pub proof fn lemma_place_at<K>(keys: Seq<K>, k: K, n: int)
    requires
        0 <= n <= keys.len(),
        forall|i: int| 0 <= i < n ==> keys[i] != k,
        n < keys.len() ==> keys[n] == k,
    ensures
        place(keys, k) == n,
{
    lemma_place(keys, k);
    let p: int = place(keys, k);
    if p < n {
        assert(keys[p] != k);
    } else if n < p {
        assert(keys[n] != k);
    }
}

/// With distinct keys, every key is found in its own place.
pub proof fn lemma_place_distinct<K>(keys: Seq<K>, i: int)
    requires
        keys.no_duplicates(),
        0 <= i < keys.len(),
    ensures
        place(keys, keys[i]) == i,
{
    lemma_place_at(keys, keys[i], i);
}

/// Replacing the value in the place of a key is an insertion.
pub proof fn lemma_table_update<K, V>(keys: Seq<K>, vals: Seq<V>, k: K, v: V)
    requires
        keys.len() == vals.len(),
        place(keys, k) < keys.len(),
    ensures
        as_map(keys, vals.update(place(keys, k), v)) == as_map(keys, vals).insert(k, v),
{
    let p: int = place(keys, k);
    let a = as_map(keys, vals.update(p, v));
    let b = as_map(keys, vals).insert(k, v);
    lemma_place(keys, k);
    assert forall|x: K| #[trigger] a.contains_key(x) <==> b.contains_key(x) by {}
    assert forall|x: K| a.contains_key(x) implies #[trigger] a[x] == b[x] by {
        lemma_place(keys, x);
    }
    assert(a =~= b);
}

/// A new row for a new key is an insertion.
pub proof fn lemma_table_push<K, V>(keys: Seq<K>, vals: Seq<V>, k: K, v: V)
    requires
        keys.len() == vals.len(),
        keys.no_duplicates(),
        place(keys, k) == keys.len(),
    ensures
        as_map(keys.push(k), vals.push(v)) == as_map(keys, vals).insert(k, v),
        keys.push(k).no_duplicates(),
{
    let a = as_map(keys.push(k), vals.push(v));
    let b = as_map(keys, vals).insert(k, v);
    lemma_place(keys, k);
    assert forall|x: K| #![trigger place(keys, x)]
        place(keys.push(k), x) == if place(keys, x) < keys.len() || x != k {
            if place(keys, x) < keys.len() {
                place(keys, x)
            } else {
                keys.len() as int + 1
            }
        } else {
            keys.len() as int
        } by {
        lemma_place(keys, x);
        let p: int = place(keys, x);
        if p < keys.len() {
            lemma_place_at(keys.push(k), x, p);
        } else if x == k {
            lemma_place_at(keys.push(k), x, p);
        } else {
            lemma_place_at(keys.push(k), x, p + 1);
        }
    }
    assert forall|x: K| #[trigger] a.contains_key(x) <==> b.contains_key(x) by {
        lemma_place(keys, x);
    }
    assert forall|x: K| a.contains_key(x) implies #[trigger] a[x] == b[x] by {
        lemma_place(keys, x);
    }
    assert(a =~= b);
    assert forall|i: int, j: int|
        0 <= i < keys.push(k).len() && 0 <= j < keys.push(k).len() && i != j implies keys.push(k)[i]
        != keys.push(k)[j] by {}
}

/// Taking out the row of a key takes the key out.
pub proof fn lemma_table_remove<K, V>(keys: Seq<K>, vals: Seq<V>, i: int)
    requires
        keys.len() == vals.len(),
        keys.no_duplicates(),
        0 <= i < keys.len(),
    ensures
        as_map(keys.remove(i), vals.remove(i)) == as_map(keys, vals).remove(keys[i]),
        keys.remove(i).no_duplicates(),
{
    let ks = keys.remove(i);
    let a = as_map(ks, vals.remove(i));
    let b = as_map(keys, vals).remove(keys[i]);
    assert forall|x: K| #![trigger place(keys, x)]
        x != keys[i] implies place(ks, x) == if place(keys, x) < i {
        place(keys, x)
    } else {
        place(keys, x) - 1
    } by {
        lemma_place(keys, x);
        let p: int = place(keys, x);
        if p < i {
            lemma_place_at(ks, x, p);
        } else {
            assert forall|j: int| 0 <= j < p - 1 implies ks[j] != x by {
                if j < i {
                    assert(ks[j] == keys[j]);
                } else {
                    assert(ks[j] == keys[j + 1]);
                }
            }
            if p < keys.len() {
                assert(p > i);
                assert(ks[p - 1] == keys[p]);
            }
            lemma_place_at(ks, x, p - 1);
        }
    }
    assert(place(ks, keys[i]) == ks.len()) by {
        assert forall|j: int| 0 <= j < ks.len() implies ks[j] != keys[i] by {
            if j < i {
                assert(ks[j] == keys[j]);
            } else {
                assert(ks[j] == keys[j + 1]);
            }
        }
        lemma_place_at(ks, keys[i], ks.len() as int);
    }
    assert forall|x: K| #[trigger] a.contains_key(x) <==> b.contains_key(x) by {
        lemma_place(keys, x);
        lemma_place(ks, x);
    }
    assert forall|x: K| a.contains_key(x) implies #[trigger] a[x] == b[x] by {
        lemma_place(keys, x);
        lemma_place(ks, x);
    }
    assert(a =~= b);
    assert forall|p: int, q: int| 0 <= p < ks.len() && 0 <= q < ks.len() && p != q implies ks[p]
        != ks[q] by {
        let p2: int = if p < i { p } else { p + 1 };
        let q2: int = if q < i { q } else { q + 1 };
        assert(ks[p] == keys[p2]);
        assert(ks[q] == keys[q2]);
    }
}

} // verus!
