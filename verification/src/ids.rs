//! Sets of gem ids, kept as strictly increasing vectors of `usize`.
//!
//! A strictly increasing vector is a canonical representation of a finite set
//! of ids: two such vectors holding the same ids are equal element for
//! element.  All derived indices of the collection store their id sets this
//! way, which makes every operation of the engine deterministic.

use vstd::prelude::*;

verus! {

/// The elements of `s` are strictly increasing (so also pairwise distinct).
pub open spec fn strictly_sorted(s: Seq<usize>) -> bool {
    forall|i: int, j: int| 0 <= i < j < s.len() ==> s[i] < s[j]
}

/// Two strictly increasing sequences with the same elements are equal.
pub proof fn lemma_strictly_sorted_canonical(a: Seq<usize>, b: Seq<usize>)
    requires
        strictly_sorted(a),
        strictly_sorted(b),
        a.to_set() == b.to_set(),
    ensures
        a == b,
    decreases a.len(),
{
    broadcast use vstd::seq_lib::group_seq_properties;

    if a.len() == 0 {
        if b.len() > 0 {
            assert(a.to_set().contains(b[0]));
        }
        assert(a =~= b);
    } else {
        assert(b.to_set().contains(a[0]));
        assert(a.to_set().contains(a[0]));
        if b.len() == 0 {
            assert(false);
        }
        // The heads are both the minimum of the common element set.
        let ia = choose|i: int| 0 <= i < b.len() && b[i] == a[0];
        let ib = choose|i: int| 0 <= i < a.len() && a[i] == b[0];
        assert(b.to_set().contains(b[0]));
        assert(a[0] <= b[0] && b[0] <= a[0]) by {
            assert(0 <= ia < b.len() && b[ia] == a[0]);
            assert(0 <= ib < a.len() && a[ib] == b[0]);
        }
        // Tails contain the same elements.
        assert(a.drop_first().to_set() =~= b.drop_first().to_set()) by {
            assert forall|x: usize| a.drop_first().to_set().contains(x)
                implies b.drop_first().to_set().contains(x) by {
                let i = choose|i: int| 0 <= i < a.drop_first().len() && a.drop_first()[i] == x;
                assert(a[i + 1] == x);
                assert(a[0] < x);
                assert(b.to_set().contains(x));
                let j = choose|j: int| 0 <= j < b.len() && b[j] == x;
                assert(j != 0);
                assert(b.drop_first()[j - 1] == x);
            }
            assert forall|x: usize| b.drop_first().to_set().contains(x)
                implies a.drop_first().to_set().contains(x) by {
                let i = choose|i: int| 0 <= i < b.drop_first().len() && b.drop_first()[i] == x;
                assert(b[i + 1] == x);
                assert(b[0] < x);
                assert(a.to_set().contains(x));
                let j = choose|j: int| 0 <= j < a.len() && a[j] == x;
                assert(j != 0);
                assert(a.drop_first()[j - 1] == x);
            }
        }
        lemma_strictly_sorted_canonical(a.drop_first(), b.drop_first());
        assert(a =~= b);
    }
}

/// The strictly increasing sequence holding exactly the ids of `s`.
pub open spec fn id_seq_of(s: Set<usize>) -> Seq<usize> {
    choose|q: Seq<usize>| strictly_sorted(q) && q.to_set() == s
}

/// Any strictly increasing witness pins `id_seq_of` down.
pub proof fn lemma_id_seq_of(q: Seq<usize>)
    requires
        strictly_sorted(q),
    ensures
        id_seq_of(q.to_set()) == q,
{
    let c = id_seq_of(q.to_set());
    assert(strictly_sorted(c) && c.to_set() == q.to_set()) by {
        assert(strictly_sorted(q) && q.to_set() == q.to_set());
    }
    lemma_strictly_sorted_canonical(c, q);
}

/// Whether the vector holds the id.
pub fn ids_contain(v: &Vec<usize>, x: usize) -> (r: bool)
    ensures
        r == v@.to_set().contains(x),
{
    broadcast use vstd::seq_lib::group_seq_properties;

    let mut i: usize = 0;
    while i < v.len()
        invariant
            0 <= i <= v.len(),
            forall|k: int| 0 <= k < i ==> v@[k] != x,
        decreases v.len() - i,
    {
        if v[i] == x {
            return true;
        }
        i = i + 1;
    }
    assert(!v@.contains(x));
    false
}

/// Inserts an id, keeping the vector strictly increasing; no effect if present.
pub fn ids_insert(v: &mut Vec<usize>, x: usize)
    requires
        strictly_sorted(old(v)@),
    ensures
        strictly_sorted(final(v)@),
        final(v)@.to_set() == old(v)@.to_set().insert(x),
        final(v)@.len() <= old(v)@.len() + 1,
{
    broadcast use vstd::seq_lib::group_seq_properties;

    let ghost orig = v@;
    let mut i: usize = 0;
    while i < v.len() && v[i as usize] < x
        invariant
            0 <= i <= v.len(),
            v@ == orig,
            forall|k: int| 0 <= k < i ==> v@[k] < x,
        decreases v.len() - i,
    {
        i = i + 1;
    }
    if i < v.len() && v[i] == x {
        assert(v@.to_set() =~= orig.to_set().insert(x));
        return;
    }
    v.insert(i, x);
    assert(v@ == orig.insert(i as int, x));
    assert(strictly_sorted(v@)) by {
        assert(forall|k: int| 0 <= k < i ==> v@[k] == orig[k]);
        assert(forall|k: int| i < k < v@.len() ==> v@[k] == orig[k - 1]);
        assert forall|k: int| i < k < v@.len() implies x < v@[k] by {
            assert(v@[k] == orig[k - 1]);
            assert(i < orig.len());
            assert(x < orig[i as int]);
            if i < k - 1 {
                assert(orig[i as int] < orig[k - 1]);
            }
        }
    }
    assert(v@.to_set() =~= orig.to_set().insert(x)) by {
        assert forall|y: usize| v@.to_set().contains(y)
            implies orig.to_set().contains(y) || y == x by {
            let k = choose|k: int| 0 <= k < v@.len() && v@[k] == y;
            if k < i {
                assert(orig[k] == y);
            } else if k > i {
                assert(orig[k - 1] == y);
            }
        }
        assert forall|y: usize| orig.to_set().contains(y)
            implies v@.to_set().contains(y) by {
            let k = choose|k: int| 0 <= k < orig.len() && orig[k] == y;
            if k < i {
                assert(v@[k] == y);
            } else {
                assert(v@[k + 1] == y);
            }
        }
        assert(v@[i as int] == x);
    }
}

/// Removes an id, keeping the vector strictly increasing; no effect if absent.
pub fn ids_remove(v: &mut Vec<usize>, x: usize)
    requires
        strictly_sorted(old(v)@),
    ensures
        strictly_sorted(final(v)@),
        final(v)@.to_set() == old(v)@.to_set().remove(x),
{
    broadcast use vstd::seq_lib::group_seq_properties;

    let ghost orig = v@;
    let mut i: usize = 0;
    while i < v.len() && v[i as usize] != x
        invariant
            0 <= i <= v.len(),
            v@ == orig,
            forall|k: int| 0 <= k < i ==> v@[k] != x,
        decreases v.len() - i,
    {
        i = i + 1;
    }
    if i == v.len() {
        assert(!orig.contains(x));
        assert(v@.to_set() =~= orig.to_set().remove(x));
        return;
    }
    v.remove(i);
    assert(v@ == orig.remove(i as int));
    assert(strictly_sorted(v@)) by {
        assert(forall|k: int| 0 <= k < i ==> v@[k] == orig[k]);
        assert(forall|k: int| i <= k < v@.len() ==> v@[k] == orig[k + 1]);
    }
    assert(v@.to_set() =~= orig.to_set().remove(x)) by {
        assert forall|y: usize| orig.to_set().contains(y) && y != x
            implies v@.to_set().contains(y) by {
            let k = choose|k: int| 0 <= k < orig.len() && orig[k] == y;
            if k < i {
                assert(v@[k] == y);
            } else {
                assert(k != i);
                assert(v@[k - 1] == y);
            }
        }
        assert forall|y: usize| v@.to_set().contains(y)
            implies orig.to_set().contains(y) && y != x by {
            let k = choose|k: int| 0 <= k < v@.len() && v@[k] == y;
            if k < i {
                assert(orig[k] == y);
            } else {
                assert(orig[k + 1] == y);
            }
            assert(y != x) by {
                if k < i {
                } else {
                    assert(orig[i as int] == x);
                    assert(orig[k + 1] > orig[i as int]);
                }
            }
        }
    }
}

/// The union of two id vectors, as a new strictly increasing vector.
pub fn ids_union(a: &Vec<usize>, b: &Vec<usize>) -> (r: Vec<usize>)
    requires
        strictly_sorted(a@),
        strictly_sorted(b@),
    ensures
        strictly_sorted(r@),
        r@.to_set() == a@.to_set() + b@.to_set(),
{
    broadcast use vstd::seq_lib::group_seq_properties;

    let mut r: Vec<usize> = Vec::new();
    let mut i: usize = 0;
    while i < a.len()
        invariant
            0 <= i <= a.len(),
            strictly_sorted(r@),
            r@.to_set() == a@.take(i as int).to_set(),
        decreases a.len() - i,
    {
        let ghost pre = r@;
        ids_insert(&mut r, a[i]);
        assert(a@.take(i + 1).to_set() =~= a@.take(i as int).to_set().insert(a@[i as int])) by {
            assert(a@.take(i + 1) == a@.take(i as int).push(a@[i as int]));
        }
        i = i + 1;
    }
    assert(a@.take(a@.len() as int) == a@);
    let mut j: usize = 0;
    while j < b.len()
        invariant
            0 <= j <= b.len(),
            strictly_sorted(r@),
            r@.to_set() == a@.to_set() + b@.take(j as int).to_set(),
        decreases b.len() - j,
    {
        ids_insert(&mut r, b[j]);
        assert(b@.take(j + 1).to_set() =~= b@.take(j as int).to_set().insert(b@[j as int])) by {
            assert(b@.take(j + 1) == b@.take(j as int).push(b@[j as int]));
        }
        assert(r@.to_set() =~= a@.to_set() + b@.take(j + 1).to_set());
        j = j + 1;
    }
    assert(b@.take(b@.len() as int) == b@);
    r
}

/// A copy of an id vector.
pub fn ids_clone(v: &Vec<usize>) -> (r: Vec<usize>)
    ensures
        r@ == v@,
{
    let mut r: Vec<usize> = Vec::new();
    let mut i: usize = 0;
    while i < v.len()
        invariant
            0 <= i <= v.len(),
            r@ == v@.take(i as int),
        decreases v.len() - i,
    {
        r.push(v[i]);
        assert(r@ == v@.take(i + 1));
        i = i + 1;
    }
    assert(v@.take(v@.len() as int) == v@);
    r
}

} // verus!
