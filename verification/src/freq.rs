//! Frequency tables: how many gems of a given id group list each facet name
//! as unknown.

use vstd::prelude::*;
use crate::gem::{Gem, GemView, gem_wf, distinct_names, name_views};
use crate::ids::strictly_sorted;

verus! {

/// The views of the gems of a vector.
pub open spec fn gem_views(s: Seq<Gem>) -> Seq<GemView> {
    s.map_values(|g: Gem| g@)
}

/// Filtering distributes over appending one element.
pub proof fn lemma_filter_push<A>(s: Seq<A>, x: A, p: spec_fn(A) -> bool)
    ensures
        s.push(x).filter(p) == if p(x) {
            s.filter(p).push(x)
        } else {
            s.filter(p)
        },
{
    reveal_with_fuel(Seq::filter, 2);
    assert(s.push(x).drop_last() =~= s);
    assert(s.push(x).last() == x);
}

/// The count a table gives a facet; a facet the table does not list counts 0.
pub open spec fn table_get(m: Map<Seq<char>, usize>, f: Seq<char>) -> usize {
    if m.dom().contains(f) {
        m[f]
    } else {
        0
    }
}

/// How many of the gems named by `ids` list `f` as unknown.
pub open spec fn facet_frequency(gems: Seq<GemView>, ids: Seq<usize>, f: Seq<char>) -> nat {
    ids.filter(|id: usize| id < gems.len() && gems[id as int].facets.contains(f)).len()
}

/// The full tally over `ids`: every facet that occurs, mapped to its count.
pub open spec fn frequency_map(gems: Seq<GemView>, ids: Seq<usize>) -> Map<Seq<char>, usize> {
    Map::new(
        |f: Seq<char>| facet_frequency(gems, ids, f) > 0,
        |f: Seq<char>| facet_frequency(gems, ids, f) as usize,
    )
}

/// A frequency never exceeds the number of ids tallied.
pub proof fn lemma_frequency_bound(gems: Seq<GemView>, ids: Seq<usize>, f: Seq<char>)
    ensures
        facet_frequency(gems, ids, f) <= ids.len(),
{
    broadcast use vstd::seq_lib::group_seq_properties;

    ids.lemma_filter_len(|id: usize| id < gems.len() && gems[id as int].facets.contains(f));
}

/// One more id adds one to the count of exactly the facets its gem lists.
pub proof fn lemma_frequency_step(gems: Seq<GemView>, ids: Seq<usize>, x: usize, f: Seq<char>)
    requires
        x < gems.len(),
    ensures
        facet_frequency(gems, ids.push(x), f) == facet_frequency(gems, ids, f)
            + if gems[x as int].facets.contains(f) {
            1nat
        } else {
            0nat
        },
{
    lemma_filter_push(ids, x, |id: usize| id < gems.len() && gems[id as int].facets.contains(f));
}

/// The key views of an association list.
pub open spec fn assoc_keys(s: Seq<(String, usize)>) -> Seq<Seq<char>> {
    name_views(s.map_values(|p: (String, usize)| p.0))
}

/// Replacing the value at an entry updates the map at that entry's key.
proof fn lemma_set_entry(
    orig: Seq<(String, usize)>,
    upd: Seq<(String, usize)>,
    i: int,
    f: Seq<char>,
    count: usize,
)
    requires
        distinct_names(assoc_keys(orig)),
        0 <= i < orig.len(),
        orig[i].0@ == f,
        upd.len() == orig.len(),
        upd[i].0@ == f && upd[i].1 == count,
        forall|k: int| 0 <= k < orig.len() && k != i ==> upd[k] == orig[k],
    ensures
        distinct_names(assoc_keys(upd)),
        forall|g: Seq<char>|
            #![trigger assoc_map(upd).dom().contains(g)]
            #![trigger assoc_map(orig).insert(f, count).dom().contains(g)]
            assoc_map(upd).dom().contains(g)
                == assoc_map(orig).insert(f, count).dom().contains(g)
            && (assoc_map(upd).dom().contains(g)
                ==> assoc_map(upd)[g] == assoc_map(orig).insert(f, count)[g]),
{
    broadcast use vstd::seq_lib::group_seq_properties;

    assert(forall|k: int| 0 <= k < orig.len()
        ==> assoc_keys(orig)[k] == (#[trigger] orig[k]).0@);
    assert(forall|k: int| 0 <= k < upd.len()
        ==> assoc_keys(upd)[k] == (#[trigger] upd[k]).0@);
    assert(assoc_keys(upd) =~= assoc_keys(orig));
    let m = assoc_map(orig).insert(f, count);
    assert forall|g: Seq<char>|
        #![trigger assoc_map(upd).dom().contains(g)]
        #![trigger assoc_map(orig).insert(f, count).dom().contains(g)]
        assoc_map(upd).dom().contains(g) == m.dom().contains(g)
        && (assoc_map(upd).dom().contains(g)
            ==> assoc_map(upd)[g] == m[g]) by {
        lemma_assoc_map_dom(upd, g);
        lemma_assoc_map_dom(orig, g);
        if assoc_map(upd).dom().contains(g) {
            let k = choose|k: int| 0 <= k < upd.len() && (#[trigger] upd[k]).0@ == g;
            lemma_assoc_lookup(upd, k);
            assert(assoc_map(upd)[g] == upd[k].1);
            if g == f {
                lemma_assoc_lookup(upd, i);
                assert(assoc_map(upd)[g] == count);
            } else {
                assert(k != i);
                lemma_assoc_lookup(orig, k);
                assert(orig[k].0@ == g);
                assert(m[g] == assoc_map(orig)[g]);
            }
        } else {
            assert(g != f) by {
                assert(upd[i].0@ == f);
            }
            assert(!(exists|k: int| 0 <= k < orig.len() && (#[trigger] orig[k]).0@ == g));
        }
    }
}

/// Appending a fresh key adds one binding to the map.
proof fn lemma_push_entry(
    orig: Seq<(String, usize)>,
    upd: Seq<(String, usize)>,
    f: Seq<char>,
    count: usize,
)
    requires
        distinct_names(assoc_keys(orig)),
        forall|k: int| 0 <= k < orig.len() ==> (#[trigger] orig[k]).0@ != f,
        upd.len() == orig.len() + 1,
        upd.last().0@ == f && upd.last().1 == count,
        forall|k: int| 0 <= k < orig.len() ==> upd[k] == orig[k],
    ensures
        distinct_names(assoc_keys(upd)),
        forall|g: Seq<char>|
            #![trigger assoc_map(upd).dom().contains(g)]
            #![trigger assoc_map(orig).insert(f, count).dom().contains(g)]
            assoc_map(upd).dom().contains(g)
                == assoc_map(orig).insert(f, count).dom().contains(g)
            && (assoc_map(upd).dom().contains(g)
                ==> assoc_map(upd)[g] == assoc_map(orig).insert(f, count)[g]),
{
    broadcast use vstd::seq_lib::group_seq_properties;

    let n = orig.len() as int;
    assert(forall|k: int| 0 <= k < orig.len()
        ==> assoc_keys(orig)[k] == (#[trigger] orig[k]).0@);
    assert(forall|k: int| 0 <= k < upd.len()
        ==> assoc_keys(upd)[k] == (#[trigger] upd[k]).0@);
    assert(distinct_names(assoc_keys(upd))) by {
        assert forall|a: int, b: int| 0 <= a < b < upd.len()
            implies assoc_keys(upd)[a] != assoc_keys(upd)[b] by {
            if b < n {
                assert(assoc_keys(orig)[a] != assoc_keys(orig)[b]);
            } else {
                assert(assoc_keys(upd)[b] == f);
                assert(assoc_keys(upd)[a] == orig[a].0@);
            }
        }
    }
    let m = assoc_map(orig).insert(f, count);
    assert forall|g: Seq<char>|
        #![trigger assoc_map(upd).dom().contains(g)]
        #![trigger assoc_map(orig).insert(f, count).dom().contains(g)]
        assoc_map(upd).dom().contains(g) == m.dom().contains(g)
        && (assoc_map(upd).dom().contains(g)
            ==> assoc_map(upd)[g] == m[g]) by {
        lemma_assoc_map_dom(upd, g);
        lemma_assoc_map_dom(orig, g);
        if assoc_map(upd).dom().contains(g) {
            let k = choose|k: int| 0 <= k < upd.len() && (#[trigger] upd[k]).0@ == g;
            lemma_assoc_lookup(upd, k);
            if g == f {
                lemma_assoc_lookup(upd, n);
                assert(assoc_map(upd)[g] == count);
            } else {
                assert(k != n);
                lemma_assoc_lookup(orig, k);
                assert(orig[k].0@ == g);
                assert(m[g] == assoc_map(orig)[g]);
            }
        } else {
            assert(g != f) by {
                assert(upd[n].0@ == f);
            }
            assert(!(exists|k: int| 0 <= k < orig.len() && (#[trigger] orig[k]).0@ == g));
        }
    }
}

/// A tally of facet occurrences, keyed by facet name; each name at most once.
pub struct FreqTable {
    entries: Vec<(String, usize)>,
}

/// The map an association list denotes (a later entry would win, but the
/// table keeps its keys distinct).
pub open spec fn assoc_map(s: Seq<(String, usize)>) -> Map<Seq<char>, usize>
    decreases s.len(),
{
    if s.len() == 0 {
        Map::empty()
    } else {
        assoc_map(s.drop_last()).insert(s.last().0@, s.last().1)
    }
}

/// Every key of the association list is in the map's domain, and nothing else.
pub proof fn lemma_assoc_map_dom(s: Seq<(String, usize)>, f: Seq<char>)
    ensures
        assoc_map(s).dom().contains(f)
            == exists|i: int| 0 <= i < s.len() && (#[trigger] s[i]).0@ == f,
    decreases s.len(),
{
    if s.len() == 0 {
    } else {
        lemma_assoc_map_dom(s.drop_last(), f);
        if f == s.last().0@ {
            assert(s[s.len() - 1].0@ == f);
        } else {
            assert((exists|i: int| 0 <= i < s.drop_last().len()
                    && (#[trigger] s.drop_last()[i]).0@ == f)
                == exists|i: int| 0 <= i < s.len() && (#[trigger] s[i]).0@ == f) by {
                if exists|i: int| 0 <= i < s.drop_last().len()
                    && (#[trigger] s.drop_last()[i]).0@ == f {
                    let i = choose|i: int| 0 <= i < s.drop_last().len()
                        && (#[trigger] s.drop_last()[i]).0@ == f;
                    assert(s[i].0@ == f);
                } else if exists|i: int| 0 <= i < s.len() && (#[trigger] s[i]).0@ == f {
                    let i = choose|i: int| 0 <= i < s.len() && (#[trigger] s[i]).0@ == f;
                    assert(i < s.len() - 1);
                    assert(s.drop_last()[i].0@ == f);
                }
            }
        }
    }
}

impl View for FreqTable {
    type V = Map<Seq<char>, usize>;

    closed spec fn view(&self) -> Map<Seq<char>, usize> {
        assoc_map(self.entries@)
    }
}

/// Under distinct keys, each entry's value is the map's value for its key.
proof fn lemma_assoc_lookup(s: Seq<(String, usize)>, i: int)
    requires
        distinct_names(name_views(s.map_values(|p: (String, usize)| p.0))),
        0 <= i < s.len(),
    ensures
        assoc_map(s).dom().contains(s[i].0@),
        assoc_map(s)[s[i].0@] == s[i].1,
    decreases s.len(),
{
    broadcast use vstd::seq_lib::group_seq_properties;

    let keys = name_views(s.map_values(|p: (String, usize)| p.0));
    assert(forall|k: int| 0 <= k < s.len() ==> keys[k] == (#[trigger] s[k]).0@);
    if i == s.len() - 1 {
    } else {
        let d = s.drop_last();
        let dkeys = name_views(d.map_values(|p: (String, usize)| p.0));
        assert(forall|k: int| 0 <= k < d.len() ==> dkeys[k] == (#[trigger] d[k]).0@);
        assert(distinct_names(dkeys)) by {
            assert(forall|a: int, b: int| 0 <= a < b < d.len()
                ==> dkeys[a] == keys[a] && dkeys[b] == keys[b]);
        }
        lemma_assoc_lookup(d, i);
        assert(s[i].0@ != s.last().0@) by {
            assert(keys[i] != keys[s.len() - 1]);
        }
        assert(d[i] == s[i]);
    }
}

impl FreqTable {
    /// The table's keys spell pairwise distinct names.
    pub closed spec fn inv(&self) -> bool {
        distinct_names(name_views(self.entries@.map_values(|p: (String, usize)| p.0)))
    }

    spec fn key_at(&self, i: int) -> Seq<char> {
        self.entries@[i].0@
    }

    proof fn lemma_lookup(&self, i: int)
        requires
            self.inv(),
            0 <= i < self.entries@.len(),
        ensures
            self@.dom().contains(self.key_at(i)),
            self@[self.key_at(i)] == self.entries@[i].1,
    {
        lemma_assoc_lookup(self.entries@, i);
    }

    /// An empty table.
    pub fn new() -> (t: FreqTable)
        ensures
            t.inv(),
            t@ == Map::<Seq<char>, usize>::empty(),
    {
        let t = FreqTable { entries: Vec::new() };
        proof {
            assert(t@ =~= Map::<Seq<char>, usize>::empty());
        }
        t
    }

    /// The count recorded for `f`, or 0 when `f` is not listed.
    pub fn get(&self, f: &String) -> (r: usize)
        requires
            self.inv(),
        ensures
            r == table_get(self@, f@),
    {
        let mut i: usize = 0;
        while i < self.entries.len()
            invariant
                0 <= i <= self.entries@.len(),
                forall|k: int| 0 <= k < i ==> self.entries@[k].0@ != f@,
            decreases self.entries@.len() - i,
        {
            if self.entries[i].0 == *f {
                proof {
                    self.lemma_lookup(i as int);
                }
                return self.entries[i].1;
            }
            i = i + 1;
        }
        proof {
            lemma_assoc_map_dom(self.entries@, f@);
        }
        assert(!self@.dom().contains(f@));
        0
    }

    /// The count recorded for `f`, or `None` when `f` is not listed.
    pub fn get_opt(&self, f: &String) -> (r: Option<usize>)
        requires
            self.inv(),
        ensures
            r == if self@.dom().contains(f@) {
                Some(self@[f@])
            } else {
                None::<usize>
            },
    {
        let mut i: usize = 0;
        while i < self.entries.len()
            invariant
                0 <= i <= self.entries@.len(),
                forall|k: int| 0 <= k < i ==> self.entries@[k].0@ != f@,
            decreases self.entries@.len() - i,
        {
            if self.entries[i].0 == *f {
                proof {
                    self.lemma_lookup(i as int);
                }
                return Some(self.entries[i].1);
            }
            i = i + 1;
        }
        proof {
            lemma_assoc_map_dom(self.entries@, f@);
        }
        None
    }

    /// Records `count` for `f`, replacing any earlier count.
    pub fn set_count(&mut self, f: String, count: usize)
        requires
            old(self).inv(),
        ensures
            final(self).inv(),
            final(self)@ == old(self)@.insert(f@, count),
    {
        broadcast use vstd::seq_lib::group_seq_properties;

        let ghost orig = self.entries@;
        let mut i: usize = 0;
        while i < self.entries.len()
            invariant
                0 <= i <= self.entries@.len(),
                self.entries@ == orig,
                forall|k: int| 0 <= k < i ==> self.entries@[k].0@ != f@,
            decreases self.entries@.len() - i,
        {
            if self.entries[i].0 == *&f {
                self.entries.remove(i);
                self.entries.insert(i, (f, count));
                assert(self.entries@ =~= orig.update(i as int, (f, count)));
                proof {
                    lemma_set_entry(orig, self.entries@, i as int, f@, count);
                    assert(self@ =~= old(self)@.insert(f@, count));
                }
                return;
            }
            i = i + 1;
        }
        let ghost n = self.entries@.len() as int;
        self.entries.push((f, count));
        proof {
            lemma_push_entry(orig, self.entries@, f@, count);
            assert(self@ =~= old(self)@.insert(f@, count));
        }
    }

    /// Adds one to the count recorded for `f` (0 when unlisted).
    fn bump(&mut self, f: &String)
        requires
            old(self).inv(),
            table_get(old(self)@, f@) < usize::MAX,
        ensures
            final(self).inv(),
            final(self)@ == old(self)@.insert(f@, (table_get(old(self)@, f@) + 1) as usize),
    {
        let current = self.get(f);
        self.set_count(f.clone(), current + 1);
    }
}

/// Tallies, over the gems named by `ids`, how many of them list each facet.
pub fn count_frequencies(gems: &Vec<Gem>, ids: &Vec<usize>) -> (t: FreqTable)
    requires
        strictly_sorted(ids@),
        forall|k: int| 0 <= k < ids@.len()
            ==> #[trigger] ids@[k] < gems@.len() && gem_wf(gem_views(gems@)[ids@[k] as int]),
    ensures
        t.inv(),
        t@ == frequency_map(gem_views(gems@), ids@),
{
    broadcast use vstd::seq_lib::group_seq_properties;

    let ghost gv = gem_views(gems@);
    let mut t = FreqTable::new();
    assert(t@ =~= frequency_map(gv, ids@.take(0))) by {
        assert forall|f: Seq<char>| facet_frequency(gv, ids@.take(0), f) == 0 by {
            assert(ids@.take(0) =~= Seq::<usize>::empty());
            lemma_frequency_bound(gv, ids@.take(0), f);
        }
    }
    let mut i: usize = 0;
    while i < ids.len()
        invariant
            0 <= i <= ids@.len(),
            t.inv(),
            t@ == frequency_map(gv, ids@.take(i as int)),
        decreases ids@.len() - i,
    {
        let id = ids[i];
        let facets = gems[id].unknown_facets();
        let ghost gfac = gv[id as int].facets;
        assert(name_views(facets@) == gfac);
        let ghost tpre = t@;
        let mut j: usize = 0;
        while j < facets.len()
            invariant
                0 <= j <= facets@.len(),
                0 <= i < ids@.len(),
                ids@[i as int] == id,
                id < gems@.len(),
                name_views(facets@) == gfac,
                gfac == gv[id as int].facets,
                distinct_names(gfac),
                t.inv(),
                tpre == frequency_map(gv, ids@.take(i as int)),
                forall|f: Seq<char>| #[trigger] table_get(t@, f) == table_get(tpre, f)
                    + if gfac.take(j as int).contains(f) { 1int } else { 0int },
                forall|f: Seq<char>| t@.dom().contains(f)
                    == (table_get(t@, f) > 0),
            decreases facets@.len() - j,
        {
            let f = &facets[j];
            proof {
                assert(!gfac.take(j as int).contains(f@)) by {
                    let t0 = gfac.take(j as int);
                    if t0.contains(f@) {
                        let k = choose|k: int| 0 <= k < t0.len() && t0[k] == f@;
                        assert(gfac[k] == gfac[j as int]);
                    }
                }
                assert(table_get(t@, f@) == table_get(tpre, f@));
                lemma_frequency_bound(gv, ids@.take(i as int), f@);
                assert(table_get(tpre, f@) <= i) by {
                    if tpre.dom().contains(f@) {
                        assert(tpre[f@] == facet_frequency(gv, ids@.take(i as int), f@));
                    }
                }
            }
            let ghost before = t@;
            t.bump(f);
            proof {
                assert forall|g: Seq<char>| #[trigger] table_get(t@, g) == table_get(tpre, g)
                    + if gfac.take(j + 1).contains(g) { 1int } else { 0int } by {
                    assert(gfac.take(j + 1) == gfac.take(j as int).push(gfac[j as int]));
                    if g == f@ {
                        assert(gfac.take(j + 1).contains(g)) by {
                            assert(gfac.take(j + 1).last() == f@);
                        }
                        assert(table_get(t@, g) == table_get(before, g) + 1);
                    } else {
                        assert(table_get(t@, g) == table_get(before, g));
                        assert(gfac.take(j + 1).contains(g) == gfac.take(j as int).contains(g))
                            by {
                            let t1 = gfac.take(j + 1);
                            let t0 = gfac.take(j as int);
                            if t1.contains(g) {
                                let k = choose|k: int| 0 <= k < t1.len() && t1[k] == g;
                                assert(k < j);
                                assert(t0[k] == g);
                            } else {
                                if t0.contains(g) {
                                    let k = choose|k: int| 0 <= k < t0.len() && t0[k] == g;
                                    assert(t1[k] == g);
                                }
                            }
                        }
                    }
                }
                assert forall|g: Seq<char>| t@.dom().contains(g) == (table_get(t@, g) > 0) by {
                    if g == f@ {
                    } else {
                        assert(t@.dom().contains(g) == before.dom().contains(g));
                    }
                }
            }
            j = j + 1;
        }
        proof {
            assert(gfac.take(gfac.len() as int) == gfac);
            assert(ids@.take(i + 1) == ids@.take(i as int).push(id));
            assert forall|f: Seq<char>| #[trigger] table_get(t@, f)
                == facet_frequency(gv, ids@.take(i + 1), f) by {
                lemma_frequency_step(gv, ids@.take(i as int), id, f);
                assert(table_get(tpre, f) == facet_frequency(gv, ids@.take(i as int), f)) by {
                    lemma_frequency_bound(gv, ids@.take(i as int), f);
                }
            }
            assert(t@ =~= frequency_map(gv, ids@.take(i + 1))) by {
                assert forall|f: Seq<char>| t@.dom().contains(f)
                    == (facet_frequency(gv, ids@.take(i + 1), f) > 0) by {
                    assert(table_get(t@, f) == facet_frequency(gv, ids@.take(i + 1), f));
                }
            }
        }
        i = i + 1;
    }
    assert(ids@.take(ids@.len() as int) == ids@);
    t
}

} // verus!
