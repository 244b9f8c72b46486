//! Sequences of key-value pairs: the map that such a sequence stands for, and
//! its normal form, sorted by key with each key once.

use crate::h256::H256;
use vstd::prelude::*;

verus! {

/// The map that a sequence of pairs stands for: of two pairs with the same
/// key, the later one wins.
pub open spec fn map_of<K, T>(s: Seq<(K, T)>) -> Map<K, T>
    decreases s.len(),
{
    if s.len() == 0 {
        Map::empty()
    } else {
        map_of(s.drop_last()).insert(s.last().0, s.last().1)
    }
}

/// Whether the pairs stand in the strict order of their keys, so that no key
/// occurs twice.
pub open spec fn is_normal(s: Seq<(H256, H256)>) -> bool {
    forall|i: int, j: int| 0 <= i < j < s.len() ==> (#[trigger] s[i]).0.lt_spec((#[trigger] s[j]).0)
}

/// Whether the pair at index `i` of `s` has the key `k`.
pub open spec fn key_at<K, T>(s: Seq<(K, T)>, i: int, k: K) -> bool {
    0 <= i < s.len() && s[i].0 == k
}

/// A key that no pair has is not in the map.
pub proof fn lemma_map_of_absent<K, T>(s: Seq<(K, T)>, k: K)
    requires
        forall|i: int| !key_at(s, i, k),
    ensures
        !map_of(s).contains_key(k),
    decreases s.len(),
{
    if s.len() > 0 {
        assert(!key_at(s, s.len() - 1, k));
        assert forall|i: int| !key_at(s.drop_last(), i, k) by {
            assert(!key_at(s, i, k));
        }
        lemma_map_of_absent(s.drop_last(), k);
    }
}

/// The map holds under a key the value of the last pair with that key.
pub proof fn lemma_map_of_last<K, T>(s: Seq<(K, T)>, k: K, i: int)
    requires
        key_at(s, i, k),
        forall|j: int| i < j ==> !key_at(s, j, k),
    ensures
        map_of(s).contains_key(k),
        map_of(s)[k] == s[i].1,
    decreases s.len(),
{
    if i < s.len() - 1 {
        assert(!key_at(s, s.len() - 1, k));
        assert(key_at(s.drop_last(), i, k));
        assert forall|j: int| i < j implies !key_at(s.drop_last(), j, k) by {
            assert(!key_at(s, j, k));
        }
        lemma_map_of_last(s.drop_last(), k, i);
    }
}

/// The index of the last pair with the key `k` at or before index `from`,
/// where there is one.
pub proof fn last_with_key<K, T>(s: Seq<(K, T)>, k: K, from: int) -> (i: int)
    requires
        -1 <= from < s.len(),
        exists|j: int| 0 <= j <= from && key_at(s, j, k),
        forall|j: int| from < j ==> !key_at(s, j, k),
    ensures
        key_at(s, i, k),
        forall|j: int| i < j ==> !key_at(s, j, k),
    decreases from + 1,
{
    if key_at(s, from, k) {
        from
    } else {
        last_with_key(s, k, from - 1)
    }
}

/// Writing over the last pair with a key sets the value under that key.
pub proof fn lemma_map_of_overwrite<K, T>(s: Seq<(K, T)>, i: int, k: K, t: T)
    requires
        key_at(s, i, k),
        forall|j: int| i < j ==> !key_at(s, j, k),
    ensures
        map_of(s.update(i, (k, t))) == map_of(s).insert(k, t),
    decreases s.len(),
{
    let u = s.update(i, (k, t));
    if i == s.len() - 1 {
        assert(u.drop_last() =~= s.drop_last());
        assert(map_of(u) =~= map_of(s).insert(k, t));
    } else {
        let d = s.drop_last();
        assert(!key_at(s, s.len() - 1, k));
        assert(key_at(d, i, k));
        assert forall|j: int| i < j implies !key_at(d, j, k) by {
            assert(!key_at(s, j, k));
        }
        lemma_map_of_overwrite(d, i, k, t);
        assert(u.drop_last() =~= d.update(i, (k, t)));
        assert(map_of(u) =~= map_of(s).insert(k, t));
    }
}

/// Without a pair that has the key `k`, the map is the same but perhaps
/// under `k`.
pub proof fn lemma_map_of_remove<K, T>(s: Seq<(K, T)>, i: int, k: K)
    requires
        key_at(s, i, k),
    ensures
        map_of(s.remove(i)).remove(k) == map_of(s).remove(k),
    decreases s.len(),
{
    let r = s.remove(i);
    let d = s.drop_last();
    if i == s.len() - 1 {
        assert(r =~= d);
        assert(map_of(r).remove(k) =~= map_of(s).remove(k));
    } else {
        assert(key_at(d, i, k));
        lemma_map_of_remove(d, i, k);
        let last = s.last();
        assert(r.len() == s.len() - 1);
        assert(r.drop_last() =~= d.remove(i));
        assert(r.last() == last);
        let a = map_of(d.remove(i));
        let b = map_of(d);
        assert(map_of(r) == a.insert(last.0, last.1));
        assert(map_of(s) == b.insert(last.0, last.1));
        let left = a.insert(last.0, last.1).remove(k);
        let right = b.insert(last.0, last.1).remove(k);
        assert forall|x: K| #[trigger] left.contains_key(x) == right.contains_key(x) by {
            assert(a.remove(k).contains_key(x) == b.remove(k).contains_key(x));
        }
        assert forall|x: K| #[trigger] left.contains_key(x) implies left[x] == right[x] by {
            if x != last.0 {
                assert(a.remove(k).contains_key(x));
                assert(a.remove(k)[x] == b.remove(k)[x]);
            }
        }
        assert(left =~= right);
    }
}

/// In a normal sequence no two pairs share a key.
pub proof fn lemma_normal_distinct(s: Seq<(H256, H256)>, i: int, j: int)
    requires
        is_normal(s),
        0 <= i < s.len(),
        0 <= j < s.len(),
        s[i].0 == s[j].0,
    ensures
        i == j,
{
    H256::lemma_lt_irreflexive(s[i].0);
    if i < j {
        assert(s[i].0.lt_spec(s[j].0));
    } else if j < i {
        assert(s[j].0.lt_spec(s[i].0));
    }
}

/// The map of a normal sequence holds each pair of it, and nothing else.
pub proof fn lemma_map_of_normal(s: Seq<(H256, H256)>)
    requires
        is_normal(s),
    ensures
        forall|i: int|
            0 <= i < s.len() ==> map_of(s).contains_key((#[trigger] s[i]).0) && map_of(s)[s[i].0]
                == s[i].1,
        forall|k: H256| #[trigger]
            map_of(s).contains_key(k) ==> exists|i: int| key_at(s, i, k),
{
    assert forall|i: int| 0 <= i < s.len() implies map_of(s).contains_key((#[trigger] s[i]).0)
        && map_of(s)[s[i].0] == s[i].1 by {
        assert forall|j: int| i < j implies !key_at(s, j, s[i].0) by {
            if key_at(s, j, s[i].0) {
                lemma_normal_distinct(s, i, j);
            }
        }
        assert(key_at(s, i, s[i].0));
        lemma_map_of_last(s, s[i].0, i);
    }
    assert forall|k: H256| #[trigger] map_of(s).contains_key(k) implies exists|i: int|
        key_at(s, i, k) by {
        if forall|i: int| !key_at(s, i, k) {
            lemma_map_of_absent(s, k);
        }
    }
}

/// Two normal sequences that stand for the same map are the same sequence.
pub proof fn lemma_normal_unique(a: Seq<(H256, H256)>, b: Seq<(H256, H256)>)
    requires
        is_normal(a),
        is_normal(b),
        map_of(a) == map_of(b),
    ensures
        a == b,
    decreases a.len(),
{
    lemma_map_of_normal(a);
    lemma_map_of_normal(b);
    if a.len() == 0 {
        if b.len() > 0 {
            assert(map_of(b).contains_key(b[0].0));
            let i = choose|i: int| key_at(a, i, b[0].0);
        }
        assert(a =~= b);
    } else if b.len() == 0 {
        assert(map_of(a).contains_key(a[0].0));
        let i = choose|i: int| key_at(b, i, a[0].0);
    } else {
        let la = a.last();
        let lb = b.last();
        assert(map_of(b).contains_key(la.0));
        assert(map_of(a).contains_key(lb.0));
        let j = choose|j: int| key_at(b, j, la.0);
        let i = choose|i: int| key_at(a, i, lb.0);
        if la.0 != lb.0 {
            assert(j < b.len() - 1);
            assert(i < a.len() - 1);
            assert(b[j].0.lt_spec(lb.0));
            assert(a[i].0.lt_spec(la.0));
            H256::lemma_lt_total(la.0, lb.0);
        }
        assert(la.0 == lb.0);
        assert(la.1 == map_of(a)[la.0]);
        assert(lb.1 == map_of(b)[lb.0]);
        lemma_drop_last_normal(a);
        lemma_drop_last_normal(b);
        lemma_normal_unique(a.drop_last(), b.drop_last());
        assert(a =~= a.drop_last().push(la));
        assert(b =~= b.drop_last().push(lb));
    }
}

/// Without its last pair a normal sequence is normal, and its map is the
/// map without the last key.
pub proof fn lemma_drop_last_normal(s: Seq<(H256, H256)>)
    requires
        is_normal(s),
        s.len() > 0,
    ensures
        is_normal(s.drop_last()),
        map_of(s.drop_last()) == map_of(s).remove(s.last().0),
{
    let d = s.drop_last();
    assert forall|i: int, j: int| 0 <= i < j < d.len() implies (#[trigger] d[i]).0.lt_spec(
        (#[trigger] d[j]).0,
    ) by {
        assert(s[i].0.lt_spec(s[j].0));
    }
    assert forall|i: int| !key_at(d, i, s.last().0) by {
        if key_at(d, i, s.last().0) {
            lemma_normal_distinct(s, i, s.len() - 1);
        }
    }
    lemma_map_of_absent(d, s.last().0);
    assert(map_of(d) =~= map_of(s).remove(s.last().0));
}

/// Putting a new key into a normal sequence at its place in the order gives
/// a normal sequence, whose map has the new pair in addition.
pub proof fn lemma_insert_normal(s: Seq<(H256, H256)>, at: int, k: H256, v: H256)
    requires
        is_normal(s),
        0 <= at <= s.len(),
        forall|i: int| 0 <= i < at ==> (#[trigger] s[i]).0.lt_spec(k),
        forall|i: int| at <= i < s.len() ==> k.lt_spec((#[trigger] s[i]).0),
    ensures
        is_normal(s.insert(at, (k, v))),
        map_of(s.insert(at, (k, v))) == map_of(s).insert(k, v),
{
    let t = s.insert(at, (k, v));
    assert forall|i: int, j: int| 0 <= i < j < t.len() implies (#[trigger] t[i]).0.lt_spec(
        (#[trigger] t[j]).0,
    ) by {
        let si = if i < at { i } else { i - 1 };
        let sj = if j < at { j } else { j - 1 };
        if i != at && j != at {
            assert(s[si].0.lt_spec(s[sj].0));
        } else if i == at {
            assert(k.lt_spec(s[sj].0));
        } else {
            assert(s[si].0.lt_spec(k));
        }
    }
    lemma_map_of_normal(s);
    lemma_map_of_normal(t);
    let m = map_of(s).insert(k, v);
    assert forall|x: H256| map_of(t).contains_key(x) implies m.contains_key(x) && m[x] == map_of(
        t,
    )[x] by {
        let i = choose|i: int| key_at(t, i, x);
        assert(map_of(t)[t[i].0] == t[i].1);
        if i != at {
            let si = if i < at { i } else { i - 1 };
            assert(t[i] == s[si]);
            assert(map_of(s).contains_key(s[si].0));
            H256::lemma_lt_irreflexive(k);
        }
    }
    assert forall|x: H256| m.contains_key(x) implies map_of(t).contains_key(x) by {
        if x == k {
            assert(t[at].0 == k);
        } else {
            let si = choose|i: int| key_at(s, i, x);
            let i = if si < at { si } else { si + 1 };
            assert(t[i] == s[si]);
            assert(map_of(t).contains_key(t[i].0));
        }
    }
    assert(map_of(t) =~= m);
}

/// Replacing the value of a key of a normal sequence gives a normal
/// sequence, whose map has the new value under that key.
pub proof fn lemma_replace_normal(s: Seq<(H256, H256)>, at: int, v: H256)
    requires
        is_normal(s),
        0 <= at < s.len(),
    ensures
        is_normal(s.update(at, (s[at].0, v))),
        map_of(s.update(at, (s[at].0, v))) == map_of(s).insert(s[at].0, v),
{
    let k = s[at].0;
    let t = s.update(at, (k, v));
    assert forall|i: int, j: int| 0 <= i < j < t.len() implies (#[trigger] t[i]).0.lt_spec(
        (#[trigger] t[j]).0,
    ) by {
        assert(s[i].0.lt_spec(s[j].0));
    }
    lemma_map_of_normal(s);
    lemma_map_of_normal(t);
    let m = map_of(s).insert(k, v);
    assert forall|x: H256| map_of(t).contains_key(x) implies m.contains_key(x) && m[x] == map_of(
        t,
    )[x] by {
        let i = choose|i: int| key_at(t, i, x);
        assert(map_of(t)[t[i].0] == t[i].1);
        if i != at {
            assert(t[i] == s[i]);
            assert(map_of(s).contains_key(s[i].0));
            if x == k {
                lemma_normal_distinct(s, i, at);
            }
        }
    }
    assert forall|x: H256| m.contains_key(x) implies map_of(t).contains_key(x) by {
        if x == k {
            assert(t[at].0 == k);
        } else {
            let i = choose|i: int| key_at(s, i, x);
            assert(t[i] == s[i]);
            assert(map_of(t).contains_key(t[i].0));
        }
    }
    assert(map_of(t) =~= m);
}

/// Puts the pair `(key, value)` into a normal sequence: in place of the pair
/// with that key, if there is one, else at the key's place in the order.
pub fn insert_sorted(out: &mut Vec<(H256, H256)>, key: H256, value: H256)
    requires
        is_normal(old(out)@),
    ensures
        is_normal(final(out)@),
        map_of(final(out)@) == map_of(old(out)@).insert(key, value),
{
    let mut i: usize = 0;
    while i < out.len() && out[i].0.is_before(&key)
        invariant
            i <= out.len(),
            out@ == old(out)@,
            forall|j: int| 0 <= j < i ==> (#[trigger] out@[j]).0.lt_spec(key),
        decreases out.len() - i,
    {
        i += 1;
    }
    if i < out.len() && out[i].0.is_same(&key) {
        proof {
            lemma_replace_normal(out@, i as int, value);
        }
        out.set(i, (key, value));
    } else {
        proof {
            let s = out@;
            assert forall|j: int| i <= j < s.len() implies key.lt_spec((#[trigger] s[j]).0) by {
                H256::lemma_lt_total(s[i as int].0, key);
                if i < j {
                    assert(s[i as int].0.lt_spec(s[j].0));
                    H256::lemma_lt_transitive(key, s[i as int].0, s[j].0);
                }
            }
            lemma_insert_normal(s, i as int, key, value);
        }
        out.insert(i, (key, value));
    }
}

/// The normal form of a sequence of pairs: the normal sequence that stands
/// for the same map.
pub fn normalized(pairs: &Vec<(H256, H256)>) -> (out: Vec<(H256, H256)>)
    ensures
        is_normal(out@),
        map_of(out@) == map_of(pairs@),
{
    let mut out: Vec<(H256, H256)> = Vec::new();
    let mut i: usize = 0;
    while i < pairs.len()
        invariant
            i <= pairs.len(),
            is_normal(out@),
            map_of(out@) == map_of(pairs@.take(i as int)),
        decreases pairs.len() - i,
    {
        proof {
            assert(pairs@.take(i + 1).drop_last() =~= pairs@.take(i as int));
        }
        insert_sorted(&mut out, pairs[i].0, pairs[i].1);
        i += 1;
    }
    proof {
        assert(pairs@.take(pairs@.len() as int) =~= pairs@);
    }
    out
}

/// The value that a sequence of pairs holds under `key`: that of the last
/// pair with this key, or zero if there is none.
pub fn lookup_pair(pairs: &Vec<(H256, H256)>, key: &H256) -> (value: H256)
    ensures
        value == crate::merge::leaf_hash(map_of(pairs@), *key),
{
    let mut i: usize = pairs.len();
    while i > 0
        invariant
            i <= pairs.len(),
            forall|j: int| i <= j ==> !key_at(pairs@, j, *key),
        decreases i,
    {
        i -= 1;
        if pairs[i].0.is_same(key) {
            proof {
                assert(key_at(pairs@, i as int, *key));
                lemma_map_of_last(pairs@, *key, i as int);
            }
            return pairs[i].1;
        }
    }
    proof {
        lemma_map_of_absent(pairs@, *key);
    }
    H256::zero()
}

} // verus!
