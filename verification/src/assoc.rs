//! Association lists seen as maps.  The collection's two indices are stored
//! as vectors of key/value pairs with pairwise distinct keys; these spec
//! functions and lemmas relate such a list to the map it denotes.

use vstd::prelude::*;

verus! {

/// No key occurs twice.
pub open spec fn distinct_keys<K, V>(s: Seq<(K, V)>) -> bool {
    forall|i: int, j: int| 0 <= i < j < s.len() ==> (#[trigger] s[i]).0 != (#[trigger] s[j]).0
}

/// The map an association list denotes (a later entry would win, but every
/// list used here keeps its keys distinct).
pub open spec fn assoc_view<K, V>(s: Seq<(K, V)>) -> Map<K, V>
    decreases s.len(),
{
    if s.len() == 0 {
        Map::empty()
    } else {
        assoc_view(s.drop_last()).insert(s.last().0, s.last().1)
    }
}

/// A key is in the domain exactly when some entry holds it.
pub proof fn lemma_assoc_view_dom<K, V>(s: Seq<(K, V)>, k: K)
    ensures
        assoc_view(s).dom().contains(k) == exists|i: int| 0 <= i < s.len() && (#[trigger] s[i]).0
            == k,
    decreases s.len(),
{
    if s.len() == 0 {
    } else {
        lemma_assoc_view_dom(s.drop_last(), k);
        if k == s.last().0 {
            assert(s[s.len() - 1].0 == k);
        } else {
            assert((exists|i: int| 0 <= i < s.drop_last().len()
                    && (#[trigger] s.drop_last()[i]).0 == k)
                == exists|i: int| 0 <= i < s.len() && (#[trigger] s[i]).0 == k) by {
                if exists|i: int| 0 <= i < s.drop_last().len()
                    && (#[trigger] s.drop_last()[i]).0 == k {
                    let i = choose|i: int| 0 <= i < s.drop_last().len()
                        && (#[trigger] s.drop_last()[i]).0 == k;
                    assert(s[i].0 == k);
                } else if exists|i: int| 0 <= i < s.len() && (#[trigger] s[i]).0 == k {
                    let i = choose|i: int| 0 <= i < s.len() && (#[trigger] s[i]).0 == k;
                    assert(i < s.len() - 1);
                    assert(s.drop_last()[i].0 == k);
                }
            }
        }
    }
}

/// Under distinct keys, each entry's value is the map's value for its key.
pub proof fn lemma_assoc_view_lookup<K, V>(s: Seq<(K, V)>, i: int)
    requires
        distinct_keys(s),
        0 <= i < s.len(),
    ensures
        assoc_view(s).dom().contains(s[i].0),
        assoc_view(s)[s[i].0] == s[i].1,
    decreases s.len(),
{
    if i == s.len() - 1 {
    } else {
        let d = s.drop_last();
        assert(distinct_keys(d)) by {
            assert(forall|a: int, b: int| 0 <= a < b < d.len()
                ==> (#[trigger] d[a]) == s[a] && (#[trigger] d[b]) == s[b]);
        }
        lemma_assoc_view_lookup(d, i);
        assert(s[i].0 != s.last().0) by {
            assert(s[i].0 != s[s.len() - 1].0);
        }
        assert(d[i] == s[i]);
    }
}

/// Replacing the value at one entry updates the map at that entry's key.
pub proof fn lemma_assoc_view_update<K, V>(orig: Seq<(K, V)>, upd: Seq<(K, V)>, i: int, v: V)
    requires
        distinct_keys(orig),
        0 <= i < orig.len(),
        upd.len() == orig.len(),
        upd[i].0 == orig[i].0 && upd[i].1 == v,
        forall|k: int| 0 <= k < orig.len() && k != i ==> upd[k] == orig[k],
    ensures
        distinct_keys(upd),
        assoc_view(upd) == assoc_view(orig).insert(orig[i].0, v),
{
    let key = orig[i].0;
    assert(distinct_keys(upd)) by {
        assert(forall|k: int| 0 <= k < upd.len() ==> (#[trigger] upd[k]).0 == orig[k].0);
    }
    let m = assoc_view(orig).insert(key, v);
    assert forall|g: K|
        #![trigger assoc_view(upd).dom().contains(g)]
        #![trigger m.dom().contains(g)]
        assoc_view(upd).dom().contains(g) == m.dom().contains(g) && (assoc_view(
            upd,
        ).dom().contains(g) ==> assoc_view(upd)[g] == m[g]) by {
        lemma_assoc_view_dom(upd, g);
        lemma_assoc_view_dom(orig, g);
        assert(forall|k: int| 0 <= k < upd.len() ==> (#[trigger] upd[k]).0 == orig[k].0);
        if assoc_view(upd).dom().contains(g) {
            let k = choose|k: int| 0 <= k < upd.len() && (#[trigger] upd[k]).0 == g;
            lemma_assoc_view_lookup(upd, k);
            if g == key {
                lemma_assoc_view_lookup(upd, i);
            } else {
                assert(k != i);
                lemma_assoc_view_lookup(orig, k);
            }
        } else {
            assert(g != key) by {
                assert(upd[i].0 == key);
            }
        }
    }
    assert(assoc_view(upd) =~= m);
}

/// Appending an entry with a fresh key adds one binding to the map.
pub proof fn lemma_assoc_view_push<K, V>(orig: Seq<(K, V)>, upd: Seq<(K, V)>, key: K, v: V)
    requires
        distinct_keys(orig),
        forall|k: int| 0 <= k < orig.len() ==> (#[trigger] orig[k]).0 != key,
        upd.len() == orig.len() + 1,
        upd.last().0 == key && upd.last().1 == v,
        forall|k: int| 0 <= k < orig.len() ==> upd[k] == orig[k],
    ensures
        distinct_keys(upd),
        assoc_view(upd) == assoc_view(orig).insert(key, v),
{
    let n = orig.len() as int;
    assert(distinct_keys(upd)) by {
        assert forall|a: int, b: int| 0 <= a < b < upd.len() implies (#[trigger] upd[a]).0 != (
        #[trigger] upd[b]).0 by {
            if b < n {
                assert(upd[a] == orig[a] && upd[b] == orig[b]);
            } else {
                assert(upd[b].0 == key);
                assert(upd[a] == orig[a]);
            }
        }
    }
    let m = assoc_view(orig).insert(key, v);
    assert forall|g: K|
        #![trigger assoc_view(upd).dom().contains(g)]
        #![trigger m.dom().contains(g)]
        assoc_view(upd).dom().contains(g) == m.dom().contains(g) && (assoc_view(
            upd,
        ).dom().contains(g) ==> assoc_view(upd)[g] == m[g]) by {
        lemma_assoc_view_dom(upd, g);
        lemma_assoc_view_dom(orig, g);
        if assoc_view(upd).dom().contains(g) {
            let k = choose|k: int| 0 <= k < upd.len() && (#[trigger] upd[k]).0 == g;
            lemma_assoc_view_lookup(upd, k);
            if g == key {
                lemma_assoc_view_lookup(upd, n);
            } else {
                assert(k != n);
                assert(upd[k] == orig[k]);
                lemma_assoc_view_lookup(orig, k);
            }
        } else {
            assert(g != key) by {
                assert(upd[n].0 == key);
            }
        }
    }
    assert(assoc_view(upd) =~= m);
}

} // verus!
