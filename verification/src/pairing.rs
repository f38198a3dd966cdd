//! The map that two parallel sequences of keys and values stand for.

use vstd::prelude::*;
use vstd::seq_lib::seq_to_set_is_finite;

verus! {

/// The map that binds each key of `keys` to the value at the same place in
/// `vals`.
pub open spec fn pairing<A, B>(keys: Seq<A>, vals: Seq<B>) -> Map<A, B> {
    Map::new(|k: A| keys.contains(k), |k: A| vals[keys.index_of(k)])
}

/// The two sequences are fit to be paired: of one length, and no key twice.
pub open spec fn pairable<A, B>(keys: Seq<A>, vals: Seq<B>) -> bool {
    keys.len() == vals.len() && keys.no_duplicates()
}

/// The sequence after the last element moved to place `i` and the last
/// place was dropped.
pub open spec fn swap_removed<A>(s: Seq<A>, i: int) -> Seq<A> {
    s.update(i, s.last()).drop_last()
}

/// The key at place `i` is bound to the value at place `i`.
pub proof fn lemma_pairing_at<A, B>(keys: Seq<A>, vals: Seq<B>, i: int)
    requires
        pairable(keys, vals),
        0 <= i < keys.len(),
    ensures
        keys.contains(keys[i]),
        keys.index_of(keys[i]) == i,
        pairing(keys, vals).contains_key(keys[i]),
        pairing(keys, vals)[keys[i]] == vals[i],
{
    assert(keys.contains(keys[i]));
}

/// A key that the map binds stands at some place, with its value beside it.
pub proof fn lemma_pairing_key<A, B>(keys: Seq<A>, vals: Seq<B>, k: A) -> (i: int)
    requires
        pairable(keys, vals),
        pairing(keys, vals).contains_key(k),
    ensures
        0 <= i < keys.len(),
        keys[i] == k,
        pairing(keys, vals)[k] == vals[i],
{
    let i = keys.index_of(k);
    lemma_pairing_at(keys, vals, i);
    i
}

/// The map has as many bindings as there are keys.
pub proof fn lemma_pairing_len<A, B>(keys: Seq<A>, vals: Seq<B>)
    requires
        pairable(keys, vals),
    ensures
        pairing(keys, vals).dom().finite(),
        pairing(keys, vals).len() == keys.len(),
{
    broadcast use seq_to_set_is_finite;

    assert(pairing(keys, vals).dom() =~= keys.to_set());
    keys.unique_seq_to_set();
}

/// Appending a new key with its value binds that key.
pub proof fn lemma_pairing_push<A, B>(keys: Seq<A>, vals: Seq<B>, k: A, v: B)
    requires
        pairable(keys, vals),
        !keys.contains(k),
    ensures
        pairable(keys.push(k), vals.push(v)),
        pairing(keys.push(k), vals.push(v)) == pairing(keys, vals).insert(k, v),
{
    let keys2 = keys.push(k);
    let vals2 = vals.push(v);
    assert forall|i: int, j: int|
        0 <= i < keys2.len() && 0 <= j < keys2.len() && i != j implies keys2[i] != keys2[j] by {
        if i < keys.len() {
            assert(keys.contains(keys[i]));
        }
        if j < keys.len() {
            assert(keys.contains(keys[j]));
        }
    }
    assert forall|x: A| #[trigger] keys2.contains(x) <==> (keys.contains(x) || x == k) by {
        if keys.contains(x) {
            let i = keys.index_of(x);
            assert(keys2[i] == x);
        }
        if x == k {
            assert(keys2[keys.len() as int] == x);
        }
    }
    assert forall|x: A| keys2.contains(x) implies #[trigger] pairing(keys2, vals2)[x] == pairing(
        keys,
        vals,
    ).insert(k, v)[x] by {
        let i = keys2.index_of(x);
        lemma_pairing_at(keys2, vals2, i);
        if i < keys.len() {
            lemma_pairing_at(keys, vals, i);
        }
    }
    assert(pairing(keys2, vals2) =~= pairing(keys, vals).insert(k, v));
}

/// Changing the value at place `i` rebinds the key at place `i`.
pub proof fn lemma_pairing_set_val<A, B>(keys: Seq<A>, vals: Seq<B>, i: int, v: B)
    requires
        pairable(keys, vals),
        0 <= i < keys.len(),
    ensures
        pairable(keys, vals.update(i, v)),
        pairing(keys, vals.update(i, v)) == pairing(keys, vals).insert(keys[i], v),
{
    let vals2 = vals.update(i, v);
    lemma_pairing_at(keys, vals, i);
    assert forall|x: A| keys.contains(x) implies #[trigger] pairing(keys, vals2)[x] == pairing(
        keys,
        vals,
    ).insert(keys[i], v)[x] by {
        let j = keys.index_of(x);
        lemma_pairing_at(keys, vals, j);
        lemma_pairing_at(keys, vals2, j);
    }
    assert(pairing(keys, vals2) =~= pairing(keys, vals).insert(keys[i], v));
}

/// Changing the key at place `i` to a new key moves the binding to it.
pub proof fn lemma_pairing_set_key<A, B>(keys: Seq<A>, vals: Seq<B>, i: int, k: A)
    requires
        pairable(keys, vals),
        0 <= i < keys.len(),
        !keys.contains(k),
    ensures
        pairable(keys.update(i, k), vals),
        pairing(keys.update(i, k), vals) == pairing(keys, vals).remove(keys[i]).insert(k, vals[i]),
{
    let keys2 = keys.update(i, k);
    assert forall|a: int, b: int|
        0 <= a < keys2.len() && 0 <= b < keys2.len() && a != b implies keys2[a] != keys2[b] by {
        if a != i {
            assert(keys.contains(keys[a]));
        }
        if b != i {
            assert(keys.contains(keys[b]));
        }
    }
    assert forall|x: A| #[trigger] keys2.contains(x) <==> ((keys.contains(x) && x != keys[i]) || x
        == k) by {
        if keys.contains(x) && x != keys[i] {
            let j = keys.index_of(x);
            assert(keys2[j] == x);
        }
        if x == k {
            assert(keys2[i] == x);
        }
        if keys2.contains(x) {
            let j = keys2.index_of(x);
            if j != i {
                assert(keys[j] == x);
            }
        }
    }
    assert forall|x: A| keys2.contains(x) implies #[trigger] pairing(keys2, vals)[x] == pairing(
        keys,
        vals,
    ).remove(keys[i]).insert(k, vals[i])[x] by {
        let j = keys2.index_of(x);
        lemma_pairing_at(keys2, vals, j);
        if j != i {
            lemma_pairing_at(keys, vals, j);
        }
    }
    assert(pairing(keys2, vals) =~= pairing(keys, vals).remove(keys[i]).insert(k, vals[i]));
}

/// Moving the last pair to place `i` and dropping the last place unbinds
/// the key that stood at place `i`.
pub proof fn lemma_pairing_swap_remove<A, B>(keys: Seq<A>, vals: Seq<B>, i: int)
    requires
        pairable(keys, vals),
        0 <= i < keys.len(),
    ensures
        pairable(keys.update(i, keys.last()).drop_last(), vals.update(i, vals.last()).drop_last()),
        pairing(keys.update(i, keys.last()).drop_last(), vals.update(i, vals.last()).drop_last())
            == pairing(keys, vals).remove(keys[i]),
{
    let n = keys.len() as int;
    let keys2 = keys.update(i, keys.last()).drop_last();
    let vals2 = vals.update(i, vals.last()).drop_last();
    assert forall|x: A| #[trigger] keys2.contains(x) <==> (keys.contains(x) && x != keys[i]) by {
        if keys.contains(x) && x != keys[i] {
            let j = keys.index_of(x);
            if j == n - 1 {
                assert(keys2[i] == x);
            } else {
                assert(keys2[j] == x);
            }
        }
        if keys2.contains(x) {
            let j = keys2.index_of(x);
            if j == i {
                assert(keys[n - 1] == x);
            } else {
                assert(keys[j] == x);
            }
        }
    }
    assert forall|x: A| keys2.contains(x) implies #[trigger] pairing(keys2, vals2)[x] == pairing(
        keys,
        vals,
    ).remove(keys[i])[x] by {
        let j = keys2.index_of(x);
        lemma_pairing_at(keys2, vals2, j);
        if j == i {
            lemma_pairing_at(keys, vals, n - 1);
        } else {
            lemma_pairing_at(keys, vals, j);
        }
    }
    assert(pairing(keys2, vals2) =~= pairing(keys, vals).remove(keys[i]));
}

/// Where neither sequence holds anything twice, reading the pairs from
/// either side gives the same bindings.
pub proof fn lemma_pairing_inverse<A, B>(keys: Seq<A>, vals: Seq<B>, k: A, v: B)
    requires
        pairable(keys, vals),
        pairable(vals, keys),
    ensures
        pairing(keys, vals).contains_pair(k, v) <==> pairing(vals, keys).contains_pair(v, k),
{
    if pairing(keys, vals).contains_pair(k, v) {
        let i = lemma_pairing_key(keys, vals, k);
        lemma_pairing_at(vals, keys, i);
    }
    if pairing(vals, keys).contains_pair(v, k) {
        let i = lemma_pairing_key(vals, keys, v);
        lemma_pairing_at(keys, vals, i);
    }
}

} // verus!
