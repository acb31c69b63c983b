use vstd::prelude::*;

use crate::model::{moved_path, relocated};
use crate::path::{is_prefix_of, Path};

verus! {

/// No key occurs twice.
pub open spec fn unique_keys(keys: Seq<Path>) -> bool {
    forall|i: int, j: int|
        0 <= i < keys.len() && 0 <= j < keys.len() && #[trigger] keys[i] == #[trigger] keys[j]
            ==> i == j
}

/// The map that pairs each key with the value at the same position.
pub open spec fn keyed<V>(keys: Seq<Path>, vals: Seq<V>) -> Map<Path, V> {
    Map::new(|p: Path| keys.contains(p), |p: Path| vals[keys.index_of(p)])
}

pub proof fn lemma_keyed_lookup<V>(keys: Seq<Path>, vals: Seq<V>, i: int)
    requires
        unique_keys(keys),
        0 <= i < keys.len(),
    ensures
        keyed(keys, vals).contains_key(keys[i]),
        keyed(keys, vals)[keys[i]] == vals[i],
{
    assert(keys.contains(keys[i]));
    let j = keys.index_of(keys[i]);
    assert(keys[j] == keys[i]);
}

pub proof fn lemma_keyed_push<V>(keys: Seq<Path>, vals: Seq<V>, k: Path, v: V)
    requires
        unique_keys(keys),
        keys.len() == vals.len(),
        !keys.contains(k),
    ensures
        unique_keys(keys.push(k)),
        keyed(keys.push(k), vals.push(v)) == keyed(keys, vals).insert(k, v),
{
    let nk = keys.push(k);
    let nv = vals.push(v);
    assert forall|i: int, j: int|
        0 <= i < nk.len() && 0 <= j < nk.len() && #[trigger] nk[i] == #[trigger] nk[j] implies i == j by {
        if i < keys.len() && j == keys.len() {
            assert(keys.contains(nk[i]));
        }
        if j < keys.len() && i == keys.len() {
            assert(keys.contains(nk[j]));
        }
    }
    let a = keyed(nk, nv);
    let b = keyed(keys, vals).insert(k, v);
    assert forall|p: Path| a.contains_key(p) == b.contains_key(p) by {
        if nk.contains(p) && p != k {
            let i = choose|i: int| 0 <= i < nk.len() && nk[i] == p;
            assert(keys[i] == p);
        }
        if p == k {
            assert(nk[keys.len() as int] == k);
        }
        if keys.contains(p) {
            let i = choose|i: int| 0 <= i < keys.len() && keys[i] == p;
            assert(nk[i] == p);
        }
    }
    assert forall|p: Path| #[trigger] a.contains_key(p) implies a[p] == b[p] by {
        let i = choose|i: int| 0 <= i < nk.len() && nk[i] == p;
        lemma_keyed_lookup(nk, nv, i);
        if i < keys.len() {
            lemma_keyed_lookup(keys, vals, i);
        }
    }
    assert(a =~= b);
}

pub proof fn lemma_keyed_update<V>(keys: Seq<Path>, vals: Seq<V>, i: int, v: V)
    requires
        unique_keys(keys),
        keys.len() == vals.len(),
        0 <= i < keys.len(),
    ensures
        keyed(keys, vals.update(i, v)) == keyed(keys, vals).insert(keys[i], v),
{
    let a = keyed(keys, vals.update(i, v));
    let b = keyed(keys, vals).insert(keys[i], v);
    assert(keys.contains(keys[i]));
    assert forall|p: Path| #[trigger] a.contains_key(p) implies a[p] == b[p] by {
        let j = choose|j: int| 0 <= j < keys.len() && keys[j] == p;
        lemma_keyed_lookup(keys, vals.update(i, v), j);
        lemma_keyed_lookup(keys, vals, j);
    }
    assert(a =~= b);
}

pub proof fn lemma_keyed_remove<V>(keys: Seq<Path>, vals: Seq<V>, i: int)
    requires
        unique_keys(keys),
        keys.len() == vals.len(),
        0 <= i < keys.len(),
    ensures
        unique_keys(keys.remove(i)),
        keyed(keys.remove(i), vals.remove(i)) == keyed(keys, vals).remove(keys[i]),
{
    let nk = keys.remove(i);
    let nv = vals.remove(i);
    assert forall|a: int, b: int|
        0 <= a < nk.len() && 0 <= b < nk.len() && #[trigger] nk[a] == #[trigger] nk[b] implies a == b by {
        let a2 = if a < i { a } else { a + 1 };
        let b2 = if b < i { b } else { b + 1 };
        assert(keys[a2] == nk[a] && keys[b2] == nk[b]);
    }
    let m1 = keyed(nk, nv);
    let m2 = keyed(keys, vals).remove(keys[i]);
    assert forall|p: Path| m1.contains_key(p) == m2.contains_key(p) by {
        if nk.contains(p) {
            let a = choose|a: int| 0 <= a < nk.len() && nk[a] == p;
            let a2 = if a < i { a } else { a + 1 };
            assert(keys[a2] == p);
            assert(keys.contains(p));
        }
        if keys.contains(p) && p != keys[i] {
            let a = choose|a: int| 0 <= a < keys.len() && keys[a] == p;
            let a2 = if a < i { a } else { a - 1 };
            assert(nk[a2] == p);
        }
    }
    assert forall|p: Path| #[trigger] m1.contains_key(p) implies m1[p] == m2[p] by {
        let a = choose|a: int| 0 <= a < nk.len() && nk[a] == p;
        let a2 = if a < i { a } else { a + 1 };
        lemma_keyed_lookup(nk, nv, a);
        lemma_keyed_lookup(keys, vals, a2);
    }
    assert(m1 =~= m2);
}


proof fn lemma_prefix_concat(a: Path, s: Path)
    ensures
        is_prefix_of(a, a + s),
        (a + s).skip(a.len() as int) == s,
{
    assert((a + s).take(a.len() as int) =~= a);
    assert((a + s).skip(a.len() as int) =~= s);
}

proof fn lemma_prefix_split(a: Path, k: Path)
    requires
        is_prefix_of(a, k),
    ensures
        a + k.skip(a.len() as int) == k,
{
    assert(a + k.skip(a.len() as int) =~= k);
}

/// Taking every key at or under `from` to the same place under `to` moves the
/// map's entries in the same way, where no key lies at or under `to`.
pub proof fn lemma_keyed_relocate<V>(keys: Seq<Path>, vals: Seq<V>, from: Path, to: Path)
    requires
        unique_keys(keys),
        keys.len() == vals.len(),
        forall|j: int| 0 <= j < keys.len() ==> !is_prefix_of(to, #[trigger] keys[j]),
    ensures
        unique_keys(keys.map_values(|k: Path| moved_path(k, from, to))),
        keyed(keys.map_values(|k: Path| moved_path(k, from, to)), vals) == relocated(
            keyed(keys, vals),
            from,
            to,
        ),
{
    let nk = keys.map_values(|k: Path| moved_path(k, from, to));
    let m = keyed(keys, vals);
    assert forall|j: int| 0 <= j < keys.len() implies {
        &&& is_prefix_of(to, #[trigger] nk[j]) <==> is_prefix_of(from, keys[j])
        &&& is_prefix_of(from, keys[j]) ==> from + nk[j].skip(to.len() as int) == keys[j]
        &&& !is_prefix_of(from, keys[j]) ==> nk[j] == keys[j]
    } by {
        if is_prefix_of(from, keys[j]) {
            lemma_prefix_concat(to, keys[j].skip(from.len() as int));
            lemma_prefix_split(from, keys[j]);
        }
    }
    assert forall|a: int, b: int|
        0 <= a < nk.len() && 0 <= b < nk.len() && #[trigger] nk[a] == #[trigger] nk[b] implies a == b by {
        if is_prefix_of(from, keys[a]) && is_prefix_of(from, keys[b]) {
            assert(keys[a] == keys[b]);
        }
    }
    let n = keyed(nk, vals);
    let r = relocated(m, from, to);
    assert forall|k: Path| n.contains_key(k) implies r.contains_key(k) && n[k] == r[k] by {
        let j = choose|j: int| 0 <= j < nk.len() && nk[j] == k;
        lemma_keyed_lookup(nk, vals, j);
        lemma_keyed_lookup(keys, vals, j);
    }
    assert forall|k: Path| r.contains_key(k) implies n.contains_key(k) by {
        if m.contains_key(k) && !is_prefix_of(from, k) {
            let j = choose|j: int| 0 <= j < keys.len() && keys[j] == k;
            assert(nk[j] == k);
        } else {
            let j = choose|j: int| 0 <= j < keys.len() && keys[j] == from + k.skip(to.len() as int);
            lemma_prefix_concat(from, k.skip(to.len() as int));
            lemma_prefix_split(to, k);
            assert(nk[j] == k);
        }
    }
    assert(n =~= r);
}

} // verus!
