//! The gem collection and its derived indices.
//!
//! Besides the gems themselves the collection keeps: a size index grouping
//! gem ids by their count of unknown facets, a facet index mapping each facet
//! name to the gems that still lack it, the set of facet names already
//! taught, and a collection-wide frequency baseline computed when the indices
//! are built.

use vstd::prelude::*;
use crate::assoc::{assoc_view, distinct_keys, lemma_assoc_view_dom, lemma_assoc_view_lookup,
    lemma_assoc_view_push, lemma_assoc_view_update};
use crate::freq::{FreqTable, count_frequencies, frequency_map, gem_views};
use crate::gem::{Gem, GemView, distinct_names, gem_wf, lemma_strip_facets, name_views, strip_facets};
use crate::ids::{id_seq_of, ids_insert, lemma_id_seq_of, strictly_sorted};
use crate::select::select_best;

verus! {

/// The error and terminal conditions of the engine.
#[derive(Clone, Copy, Debug, PartialEq, Eq, Structural)]
pub enum EngineError {
    /// An index named a gem id the collection does not hold: a broken
    /// invariant, fatal.
    MissingGem,
    /// Fewer than two distinct nonempty size classes remain, so no round can
    /// be formed: ordering is complete.
    EmptyCandidateGroup,
    /// Neither the round's local frequency table nor the baseline gave any
    /// candidate a positive weight.
    NoViableFacetSelection,
}

/// The mathematical content of a collection.
pub ghost struct CollectionView {
    /// Gem views, indexed by gem id.
    pub gems: Seq<GemView>,
    /// Names already taught, in the order they were taught.
    pub known: Seq<Seq<char>>,
    /// Unknown-facet count to the ids of the gems holding that count.
    pub size_index: Map<usize, Seq<usize>>,
    /// Facet name to the ids of the gems that still lack it.
    pub facet_index: Map<Seq<char>, Seq<usize>>,
    /// The collection-wide frequency table taken at index-build time.
    pub baseline: Map<Seq<char>, usize>,
}

/// The semantic coherence of a collection: every derived index agrees with
/// the gems it was derived from.
pub open spec fn view_invariant(cv: CollectionView) -> bool {
    &&& cv.gems.len() <= usize::MAX
    &&& forall|i: int| 0 <= i < cv.gems.len() ==> gem_wf(#[trigger] cv.gems[i]) && cv.gems[i].facets.len() <= usize::MAX
    &&& forall|c: usize| #[trigger] cv.size_index.dom().contains(c) ==> strictly_sorted(
        cv.size_index[c],
    )
    &&& forall|c: usize, k: int|
        cv.size_index.dom().contains(c) && 0 <= k < cv.size_index[c].len() ==> (
        #[trigger] cv.size_index[c][k]) < cv.gems.len() && cv.gems[cv.size_index[c][k] as int].facets.len() == c
    &&& forall|i: int|
        0 <= i < cv.gems.len() && (#[trigger] cv.gems[i]).facets.len() > 0
            ==> cv.size_index.dom().contains(cv.gems[i].facets.len() as usize)
            && cv.size_index[cv.gems[i].facets.len() as usize].contains(i as usize)
    &&& forall|f: Seq<char>| #[trigger] cv.facet_index.dom().contains(f) ==> strictly_sorted(
        cv.facet_index[f],
    )
    &&& forall|f: Seq<char>, k: int|
        cv.facet_index.dom().contains(f) && 0 <= k < cv.facet_index[f].len() ==> (
        #[trigger] cv.facet_index[f][k]) < cv.gems.len()
            && cv.gems[cv.facet_index[f][k] as int].facets.contains(f)
    &&& forall|i: int, f: Seq<char>|
        0 <= i < cv.gems.len() && (#[trigger] cv.gems[i].facets.contains(f))
            ==> cv.facet_index.dom().contains(f) && cv.facet_index[f].contains(i as usize)
    &&& distinct_names(cv.known)
    &&& forall|i: int, k: int|
        0 <= i < cv.gems.len() && 0 <= k < cv.known.len() ==> !(#[trigger] cv.gems[i]).facets.contains(
            #[trigger] cv.known[k],
        )
}

/// The id sequence `0, 1, ..., n - 1`.
pub open spec fn all_ids(n: nat) -> Seq<usize> {
    Seq::new(n, |i: int| i as usize)
}

/// The indexed form of a collection: both indices rebuilt from the gems, and
/// the baseline tallied over every gem.
pub open spec fn spec_indexed(gems: Seq<GemView>, known: Seq<Seq<char>>) -> CollectionView {
    CollectionView {
        gems,
        known,
        size_index: Map::new(
            |c: usize| c > 0 && exists|i: int|
                0 <= i < gems.len() && (#[trigger] gems[i]).facets.len() == c,
            |c: usize| id_seq_of(
                Set::new(|id: usize| id < gems.len() && gems[id as int].facets.len() == c),
            ),
        ),
        facet_index: Map::new(
            |f: Seq<char>| exists|i: int|
                0 <= i < gems.len() && (#[trigger] gems[i]).facets.contains(f),
            |f: Seq<char>| id_seq_of(
                Set::new(|id: usize| id < gems.len() && gems[id as int].facets.contains(f)),
            ),
        ),
        baseline: frequency_map(gems, all_ids(gems.len())),
    }
}

/// What a gem group nominates: the facet set of the gem the selector picks
/// against the given table, else against the baseline, else nothing.
pub open spec fn spec_choose(
    gems: Seq<GemView>,
    baseline: Map<Seq<char>, usize>,
    cands: Seq<usize>,
    m: Map<Seq<char>, usize>,
) -> Seq<Seq<char>> {
    match select_best(gems, m, cands, None::<usize>) {
        Some(b) => gems[b as int].facets,
        None => match select_best(gems, baseline, cands, None::<usize>) {
            Some(b) => gems[b as int].facets,
            None => Seq::empty(),
        },
    }
}

/// A collection of gems with its derived indices.
pub struct GemCollection {
    gems: Vec<Gem>,
    known_facets: Vec<String>,
    size_index: Vec<(usize, Vec<usize>)>,
    facet_index: Vec<(String, Vec<usize>)>,
    frequency_baseline: FreqTable,
}

/// The size index entries as key/value pairs of views.
pub open spec fn si_pairs(s: Seq<(usize, Vec<usize>)>) -> Seq<(usize, Seq<usize>)> {
    s.map_values(|p: (usize, Vec<usize>)| (p.0, p.1@))
}

/// The facet index entries as key/value pairs of views.
pub open spec fn fi_pairs(s: Seq<(String, Vec<usize>)>) -> Seq<(Seq<char>, Seq<usize>)> {
    s.map_values(|p: (String, Vec<usize>)| (p.0@, p.1@))
}

impl View for GemCollection {
    type V = CollectionView;

    closed spec fn view(&self) -> CollectionView {
        CollectionView {
            gems: gem_views(self.gems@),
            known: name_views(self.known_facets@),
            size_index: assoc_view(si_pairs(self.size_index@)),
            facet_index: assoc_view(fi_pairs(self.facet_index@)),
            baseline: self.frequency_baseline@,
        }
    }
}

impl GemCollection {
    /// The representation keeps index keys distinct and the baseline table
    /// well formed.
    pub closed spec fn inv(&self) -> bool {
        &&& distinct_keys(si_pairs(self.size_index@))
        &&& distinct_keys(fi_pairs(self.facet_index@))
        &&& self.frequency_baseline.inv()
    }

    /// A collection is well formed when its representation invariant and the
    /// semantic index invariant both hold.
    pub open spec fn well_formed(&self) -> bool {
        self.inv() && view_invariant(self@)
    }

    /// A fresh, unindexed collection over `gems`; gem ids are the positions
    /// in the vector.
    pub fn new(gems: Vec<Gem>) -> (c: GemCollection)
        requires
            forall|i: int| 0 <= i < gems@.len() ==> gem_wf((#[trigger] gems@[i])@),
        ensures
            c.inv(),
            c@.gems == gem_views(gems@),
            c@.known == Seq::<Seq<char>>::empty(),
            c@.size_index == Map::<usize, Seq<usize>>::empty(),
            c@.facet_index == Map::<Seq<char>, Seq<usize>>::empty(),
            c@.baseline == Map::<Seq<char>, usize>::empty(),
    {
        let c = GemCollection {
            gems,
            known_facets: Vec::new(),
            size_index: Vec::new(),
            facet_index: Vec::new(),
            frequency_baseline: FreqTable::new(),
        };
        proof {
            assert(c@.known =~= Seq::<Seq<char>>::empty());
            assert(si_pairs(c.size_index@) =~= Seq::<(usize, Seq<usize>)>::empty());
            assert(fi_pairs(c.facet_index@) =~= Seq::<(Seq<char>, Seq<usize>)>::empty());
        }
        c
    }

    /// How many gems the collection holds.
    pub fn gem_count(&self) -> (r: usize)
        ensures
            r == self@.gems.len(),
    {
        self.gems.len()
    }

    /// The gem with the given id, or `MissingGem` for an id the collection
    /// does not hold.
    pub fn gem(&self, id: usize) -> (r: Result<&Gem, EngineError>)
        ensures
            id < self@.gems.len() ==> r is Ok && r.unwrap()@ == self@.gems[id as int],
            id >= self@.gems.len() ==> r == Err::<&Gem, EngineError>(EngineError::MissingGem),
    {
        if id < self.gems.len() {
            assert(gem_views(self.gems@)[id as int] == self.gems@[id as int]@);
            Ok(&self.gems[id])
        } else {
            Err(EngineError::MissingGem)
        }
    }

    /// The facet names taught so far, in teaching order.
    pub fn known_facets(&self) -> (r: &Vec<String>)
        ensures
            name_views(r@) == self@.known,
    {
        &self.known_facets
    }

    /// The ids currently filed under the given unknown-facet count, in
    /// ascending order; empty when no such class exists.
    pub fn gems_with_count(&self, count: usize) -> (r: Vec<usize>)
        requires
            self.inv(),
        ensures
            self@.size_index.dom().contains(count) ==> r@ == self@.size_index[count],
            !self@.size_index.dom().contains(count) ==> r@ == Seq::<usize>::empty(),
    {
        let mut i: usize = 0;
        while i < self.size_index.len()
            invariant
                0 <= i <= self.size_index@.len(),
                forall|k: int| 0 <= k < i ==> (#[trigger] si_pairs(self.size_index@)[k]).0
                    != count,
            decreases self.size_index@.len() - i,
        {
            if self.size_index[i].0 == count {
                proof {
                    assert(si_pairs(self.size_index@)[i as int].0 == count);
                    lemma_assoc_view_lookup(si_pairs(self.size_index@), i as int);
                }
                return crate::ids::ids_clone(&self.size_index[i].1);
            }
            assert(si_pairs(self.size_index@)[i as int].0 == self.size_index@[i as int].0);
            i = i + 1;
        }
        proof {
            lemma_assoc_view_dom(si_pairs(self.size_index@), count);
        }
        Vec::new()
    }

    /// The ids of the gems that still lack the given facet, in ascending
    /// order; empty when the facet is unlisted.
    pub fn gems_with_facet(&self, facet: &String) -> (r: Vec<usize>)
        requires
            self.inv(),
        ensures
            self@.facet_index.dom().contains(facet@) ==> r@ == self@.facet_index[facet@],
            !self@.facet_index.dom().contains(facet@) ==> r@ == Seq::<usize>::empty(),
    {
        let mut i: usize = 0;
        while i < self.facet_index.len()
            invariant
                0 <= i <= self.facet_index@.len(),
                forall|k: int| 0 <= k < i ==> (#[trigger] fi_pairs(self.facet_index@)[k]).0
                    != facet@,
            decreases self.facet_index@.len() - i,
        {
            if self.facet_index[i].0 == *facet {
                proof {
                    assert(fi_pairs(self.facet_index@)[i as int].0 == facet@);
                    lemma_assoc_view_lookup(fi_pairs(self.facet_index@), i as int);
                }
                return crate::ids::ids_clone(&self.facet_index[i].1);
            }
            assert(fi_pairs(self.facet_index@)[i as int].0 == self.facet_index@[i as int].0@);
            i = i + 1;
        }
        proof {
            lemma_assoc_view_dom(fi_pairs(self.facet_index@), facet@);
        }
        Vec::new()
    }

    /// Tallies how many of the gems named by `gem_indices_for_n2` list each
    /// facet as unknown.
    pub fn create_frequency_hashmap_from_facets_of_n2_gem_indices(
        &self,
        gem_indices_for_n2: &Vec<usize>,
    ) -> (t: FreqTable)
        requires
            self.well_formed(),
            strictly_sorted(gem_indices_for_n2@),
            forall|k: int| 0 <= k < gem_indices_for_n2@.len() ==> #[trigger] gem_indices_for_n2@[k]
                < self@.gems.len(),
        ensures
            t.inv(),
            t@ == frequency_map(self@.gems, gem_indices_for_n2@),
    {
        count_frequencies(&self.gems, gem_indices_for_n2)
    }

    /// Picks, from the candidate group, the gem whose unknown facets have the
    /// highest average frequency against the given table, and returns its
    /// whole facet set; on no positive score the collection-wide baseline is
    /// tried once, and an empty set means no viable selection exists.  The
    /// last parameter is reserved and has no effect.
    pub fn choose_max_n1_gem_facets_by_frequency_hashmap(
        &self,
        gem_indices_for_n1: &Vec<usize>,
        frequency_hashmap: &FreqTable,
        _minimum_viable_hashmap_number: usize,
    ) -> (r: Vec<String>)
        requires
            self.well_formed(),
            frequency_hashmap.inv(),
            forall|k: int| 0 <= k < gem_indices_for_n1@.len() ==> #[trigger] gem_indices_for_n1@[k]
                < self@.gems.len(),
        ensures
            name_views(r@) == spec_choose(
                self@.gems,
                self@.baseline,
                gem_indices_for_n1@,
                frequency_hashmap@,
            ),
    {
        let picked = crate::select::select_candidate(
            &self.gems,
            gem_indices_for_n1,
            frequency_hashmap,
        );
        match picked {
            Some(b) => {
                proof {
                    crate::select::lemma_select_best_in_candidates(
                        gem_views(self.gems@),
                        frequency_hashmap@,
                        gem_indices_for_n1@,
                    );
                }
                crate::gem::clone_names(self.gems[b].unknown_facets())
            },
            None => {
                let fallback = crate::select::select_candidate(
                    &self.gems,
                    gem_indices_for_n1,
                    &self.frequency_baseline,
                );
                match fallback {
                    Some(b) => {
                        proof {
                            crate::select::lemma_select_best_in_candidates(
                                gem_views(self.gems@),
                                self.frequency_baseline@,
                                gem_indices_for_n1@,
                            );
                        }
                        crate::gem::clone_names(self.gems[b].unknown_facets())
                    },
                    None => {
                        let r: Vec<String> = Vec::new();
                        proof {
                            assert(name_views(r@) =~= Seq::<Seq<char>>::empty());
                        }
                        r
                    },
                }
            },
        }
    }

    /// Builds both indices and the frequency baseline from scratch.  Must be
    /// run on a freshly loaded collection: rebuilding after rounds have
    /// mutated the gems would file ids twice.
    pub fn index_all_gems_by_number(&mut self)
        requires
            old(self).inv(),
            view_invariant_base(old(self)@),
            old(self)@.size_index == Map::<usize, Seq<usize>>::empty(),
            old(self)@.facet_index == Map::<Seq<char>, Seq<usize>>::empty(),
            distinct_names(old(self)@.known),
            forall|i: int, k: int|
                0 <= i < old(self)@.gems.len() && 0 <= k < old(self)@.known.len()
                    ==> !(#[trigger] old(self)@.gems[i]).facets.contains(
                    #[trigger] old(self)@.known[k],
                ),
        ensures
            final(self).inv(),
            final(self).well_formed(),
            final(self)@ == spec_indexed(old(self)@.gems, old(self)@.known),
    {
        broadcast use vstd::seq_lib::group_seq_properties;

        let ghost gv = gem_views(self.gems@);
        let ghost known0 = name_views(self.known_facets@);
        assert(gv.len() == self.gems@.len());
        proof {
            assert forall|c: usize| !self@.size_index.dom().contains(c) by {}
            assert forall|f: Seq<char>| !self@.facet_index.dom().contains(f) by {}
        }
        let n = self.gems.len();
        let mut i: usize = 0;
        while i < n
            invariant
                0 <= i <= n,
                n == self.gems@.len(),
                self.gems == old(self).gems,
                self.known_facets == old(self).known_facets,
                self.frequency_baseline == old(self).frequency_baseline,
                gv == gem_views(self.gems@),
                distinct_keys(si_pairs(self.size_index@)),
                distinct_keys(fi_pairs(self.facet_index@)),
                forall|c: usize| #[trigger] self@.size_index.dom().contains(c)
                    == (c > 0 && exists|j: int| 0 <= j < i && (#[trigger] gv[j]).facets.len()
                        == c),
                forall|c: usize| self@.size_index.dom().contains(c)
                    ==> strictly_sorted(#[trigger] self@.size_index[c])
                        && self@.size_index[c].to_set() =~= Set::new(
                        |id: usize| id < i && gv[id as int].facets.len() == c,
                    ),
                forall|f: Seq<char>| #[trigger] self@.facet_index.dom().contains(f)
                    == exists|j: int| 0 <= j < i && (#[trigger] gv[j]).facets.contains(f),
                forall|f: Seq<char>| self@.facet_index.dom().contains(f)
                    ==> strictly_sorted(#[trigger] self@.facet_index[f])
                        && self@.facet_index[f].to_set() =~= Set::new(
                        |id: usize| id < i && gv[id as int].facets.contains(f),
                    ),
            decreases n - i,
        {
            let count = self.gems[i].unknown_count();
            assert(gv[i as int] == self.gems@[i as int]@);
            let ghost pre = self@;
            if count > 0 {
                self.size_bucket_insert(count, i);
            }
            proof {
                assert forall|c: usize| #[trigger] self@.size_index.dom().contains(c)
                    == (c > 0 && exists|j: int| 0 <= j <= i && (#[trigger] gv[j]).facets.len()
                        == c) by {
                    if self@.size_index.dom().contains(c) {
                        if count > 0 && c == count {
                            assert(gv[i as int].facets.len() == c);
                        } else {
                            assert(pre.size_index.dom().contains(c));
                            let j = choose|j: int| 0 <= j < i && (#[trigger] gv[j]).facets.len()
                                == c;
                            assert(0 <= j <= i && gv[j].facets.len() == c);
                        }
                    } else {
                        if c > 0 && exists|j: int| 0 <= j <= i && (#[trigger] gv[j]).facets.len()
                            == c {
                            let j = choose|j: int| 0 <= j <= i && (#[trigger] gv[j]).facets.len()
                                == c;
                            if j < i {
                                assert(pre.size_index.dom().contains(c));
                                assert(count > 0 ==> self@.size_index.dom().contains(c));
                                assert(count == 0 ==> self@.size_index == pre.size_index);
                                assert(false);
                            } else {
                                assert(gv[i as int].facets.len() == c);
                                assert(c == count);
                                assert(false);
                            }
                        }
                    }
                }
                assert forall|c: usize| self@.size_index.dom().contains(c)
                    implies strictly_sorted(#[trigger] self@.size_index[c])
                        && self@.size_index[c].to_set() =~= Set::new(
                        |id: usize| id <= i && gv[id as int].facets.len() == c,
                    ) by {
                    let target = Set::new(|id: usize| id <= i && gv[id as int].facets.len() == c);
                    if count > 0 && c == count {
                        let before = if pre.size_index.dom().contains(c) {
                            pre.size_index[c].to_set()
                        } else {
                            Set::<usize>::empty()
                        };
                        assert(self@.size_index[c].to_set() == before.insert(i));
                        assert(before.insert(i) =~= target);
                    } else {
                        assert(pre.size_index.dom().contains(c));
                        assert(self@.size_index[c] == pre.size_index[c]);
                        assert(pre.size_index[c].to_set() =~= target) by {
                            assert(gv[i as int].facets.len() != c);
                        }
                    }
                }
            }
            let gem_facet_total = self.gems[i].unknown_facets().len();
            let ghost fac = gv[i as int].facets;
            proof {
                assert(self@.facet_index == pre.facet_index);
                assert forall|f: Seq<char>| !fac.take(0).contains(f) by {
                    if fac.take(0).contains(f) {
                        let k = choose|k: int| 0 <= k < fac.take(0).len() && fac.take(0)[k] == f;
                    }
                }
                assert forall|f: Seq<char>| #[trigger] self@.facet_index.dom().contains(f)
                    == ((exists|j2: int| 0 <= j2 < i && (#[trigger] gv[j2]).facets.contains(f))
                        || fac.take(0).contains(f)) by {}
                assert forall|f: Seq<char>| self@.facet_index.dom().contains(f)
                    implies self@.facet_index[f].to_set() =~= Set::new(
                    |id: usize| (id < i && gv[id as int].facets.contains(f))
                        || (id == i && fac.take(0).contains(f)),
                ) by {
                    assert(self@.facet_index[f].to_set() =~= Set::new(
                        |id: usize| id < i && gv[id as int].facets.contains(f),
                    ));
                }
            }
            let mut j: usize = 0;
            while j < gem_facet_total
                invariant
                    0 <= j <= gem_facet_total,
                    0 <= i < n,
                    n == self.gems@.len(),
                    self.gems == old(self).gems,
                    self.known_facets == old(self).known_facets,
                    self.frequency_baseline == old(self).frequency_baseline,
                    gv == gem_views(self.gems@),
                    fac == gv[i as int].facets,
                    gem_facet_total == fac.len(),
                    distinct_keys(si_pairs(self.size_index@)),
                    distinct_keys(fi_pairs(self.facet_index@)),
                    forall|c: usize| #[trigger] self@.size_index.dom().contains(c)
                        == (c > 0 && exists|j2: int| 0 <= j2 <= i
                            && (#[trigger] gv[j2]).facets.len() == c),
                    forall|c: usize| self@.size_index.dom().contains(c)
                        ==> strictly_sorted(#[trigger] self@.size_index[c])
                            && self@.size_index[c].to_set() =~= Set::new(
                            |id: usize| id <= i && gv[id as int].facets.len() == c,
                        ),
                    forall|f: Seq<char>| #[trigger] self@.facet_index.dom().contains(f)
                        == ((exists|j2: int| 0 <= j2 < i
                            && (#[trigger] gv[j2]).facets.contains(f))
                            || fac.take(j as int).contains(f)),
                    forall|f: Seq<char>| self@.facet_index.dom().contains(f)
                        ==> strictly_sorted(#[trigger] self@.facet_index[f])
                            && self@.facet_index[f].to_set() =~= Set::new(
                            |id: usize| (id < i && gv[id as int].facets.contains(f))
                                || (id == i && fac.take(j as int).contains(f)),
                        ),
                decreases gem_facet_total - j,
            {
                let facet_name = self.gems[i].unknown_facets()[j].clone();
                assert(facet_name@ == fac[j as int]);
                let ghost fpre = self@;
                self.facet_entry_insert(facet_name, i);
                proof {
                    assert(self@.size_index == fpre.size_index);
                    assert(self@.gems == fpre.gems);
                    assert forall|c: usize| #[trigger] self@.size_index.dom().contains(c)
                        == (c > 0 && exists|j2: int| 0 <= j2 <= i
                            && (#[trigger] gv[j2]).facets.len() == c) by {
                        assert(fpre.size_index.dom().contains(c)
                            == (c > 0 && exists|j2: int| 0 <= j2 <= i
                                && (#[trigger] gv[j2]).facets.len() == c));
                    }
                    assert forall|c: usize| self@.size_index.dom().contains(c)
                        implies strictly_sorted(#[trigger] self@.size_index[c])
                            && self@.size_index[c].to_set() =~= Set::new(
                            |id: usize| id <= i && gv[id as int].facets.len() == c,
                        ) by {
                        assert(fpre.size_index.dom().contains(c));
                        assert(strictly_sorted(fpre.size_index[c]));
                        assert(fpre.size_index[c].to_set() =~= Set::new(
                            |id: usize| id <= i && gv[id as int].facets.len() == c,
                        ));
                    }
                    let t1 = fac.take(j + 1);
                    let t0 = fac.take(j as int);
                    assert(t1 == t0.push(fac[j as int])) by {
                        assert(t1 =~= t0.push(fac[j as int]));
                    }
                    assert forall|f: Seq<char>| #[trigger] t1.contains(f)
                        == (t0.contains(f) || f == fac[j as int]) by {
                        if t1.contains(f) {
                            let k = choose|k: int| 0 <= k < t1.len() && t1[k] == f;
                            if k < j {
                                assert(t0[k] == f);
                                assert(t0.contains(f));
                            }
                        } else {
                            if t0.contains(f) {
                                let k = choose|k: int| 0 <= k < t0.len() && t0[k] == f;
                                assert(t1[k] == f);
                            }
                            assert(t1[j as int] == fac[j as int]);
                        }
                    }
                    assert forall|f: Seq<char>| #[trigger] self@.facet_index.dom().contains(f)
                        == ((exists|j2: int| 0 <= j2 < i
                            && (#[trigger] gv[j2]).facets.contains(f)) || t1.contains(f)) by {
                        assert(self@.facet_index.dom().contains(f)
                            == (fpre.facet_index.dom().contains(f) || f == fac[j as int]));
                    }
                    assert forall|f: Seq<char>| self@.facet_index.dom().contains(f)
                        implies strictly_sorted(#[trigger] self@.facet_index[f])
                            && self@.facet_index[f].to_set() =~= Set::new(
                            |id: usize| (id < i && gv[id as int].facets.contains(f))
                                || (id == i && t1.contains(f)),
                        ) by {
                        let target = Set::new(
                            |id: usize| (id < i && gv[id as int].facets.contains(f))
                                || (id == i && t1.contains(f)),
                        );
                        if f == fac[j as int] {
                            let before = if fpre.facet_index.dom().contains(f) {
                                fpre.facet_index[f].to_set()
                            } else {
                                Set::<usize>::empty()
                            };
                            assert(self@.facet_index[f].to_set() == before.insert(i));
                            assert(before.insert(i) =~= target);
                        } else {
                            assert(fpre.facet_index.dom().contains(f));
                            assert(self@.facet_index[f] == fpre.facet_index[f]);
                            assert(fpre.facet_index[f].to_set() =~= target);
                        }
                    }
                }
                j = j + 1;
            }
            proof {
                assert(fac.take(fac.len() as int) == fac);
                assert forall|f: Seq<char>| #[trigger] self@.facet_index.dom().contains(f)
                    == exists|j2: int| 0 <= j2 < i + 1
                        && (#[trigger] gv[j2]).facets.contains(f) by {
                    if self@.facet_index.dom().contains(f) {
                        if fac.contains(f) {
                            assert(gv[i as int].facets.contains(f));
                        } else {
                            let j2 = choose|j2: int| 0 <= j2 < i
                                && (#[trigger] gv[j2]).facets.contains(f);
                            assert(0 <= j2 < i + 1 && gv[j2].facets.contains(f));
                        }
                    } else {
                        if exists|j2: int| 0 <= j2 < i + 1
                            && (#[trigger] gv[j2]).facets.contains(f) {
                            let j2 = choose|j2: int| 0 <= j2 < i + 1
                                && (#[trigger] gv[j2]).facets.contains(f);
                            if j2 < i {
                                assert(false);
                            } else {
                                assert(fac.contains(f));
                                assert(false);
                            }
                        }
                    }
                }
                assert forall|f: Seq<char>| self@.facet_index.dom().contains(f)
                    implies self@.facet_index[f].to_set() =~= Set::new(
                    |id: usize| id < i + 1 && gv[id as int].facets.contains(f),
                ) by {
                    assert(self@.facet_index[f].to_set() =~= Set::new(
                        |id: usize| (id < i && gv[id as int].facets.contains(f))
                            || (id == i && fac.contains(f)),
                    ));
                    assert(Set::new(
                        |id: usize| (id < i && gv[id as int].facets.contains(f))
                            || (id == i && fac.contains(f)),
                    ) =~= Set::new(
                        |id: usize| id < i + 1 && gv[id as int].facets.contains(f),
                    ));
                }
                assert forall|c: usize| self@.size_index.dom().contains(c)
                    implies self@.size_index[c].to_set() =~= Set::new(
                    |id: usize| id < i + 1 && gv[id as int].facets.len() == c,
                ) by {
                    assert(Set::new(|id: usize| id <= i && gv[id as int].facets.len() == c)
                        =~= Set::new(
                        |id: usize| id < i + 1 && gv[id as int].facets.len() == c,
                    ));
                }
                assert forall|c: usize| #[trigger] self@.size_index.dom().contains(c)
                    == (c > 0 && exists|j2: int| 0 <= j2 < i + 1
                        && (#[trigger] gv[j2]).facets.len() == c) by {
                    assert((exists|j2: int| 0 <= j2 <= i && (#[trigger] gv[j2]).facets.len() == c)
                        == exists|j2: int| 0 <= j2 < i + 1
                        && (#[trigger] gv[j2]).facets.len() == c);
                }
            }
            i = i + 1;
        }
        // The baseline tallies every gem.
        let ghost snap = *self;
        let mut everyone: Vec<usize> = Vec::new();
        let mut k: usize = 0;
        while k < n
            invariant
                0 <= k <= n,
                *self == snap,
                n == self.gems@.len(),
                everyone@ =~= all_ids(k as nat),
            decreases n - k,
        {
            everyone.push(k);
            assert(everyone@ =~= all_ids((k + 1) as nat));
            k = k + 1;
        }
        assert(strictly_sorted(everyone@));
        assert(forall|m: int| 0 <= m < everyone@.len() ==> #[trigger] everyone@[m]
            < self.gems@.len());
        assert(forall|m: int| 0 <= m < everyone@.len()
            ==> gem_wf(#[trigger] gem_views(self.gems@)[everyone@[m] as int]));
        let ghost pre_base = *self;
        self.frequency_baseline = count_frequencies(&self.gems, &everyone);
        proof {
            assert(self.size_index == pre_base.size_index);
            assert(self@.size_index == pre_base@.size_index);
            assert(self.facet_index == pre_base.facet_index);
            assert(self@.facet_index == pre_base@.facet_index);
            assert(self.gems == pre_base.gems);
            assert(self@.gems == pre_base@.gems);
            assert forall|c: usize| self@.size_index.dom().contains(c)
                implies (#[trigger] self@.size_index[c]).to_set() =~= Set::new(
                |id: usize| id < i && gv[id as int].facets.len() == c,
            ) by {}
        }
        proof {
            let target = spec_indexed(gv, known0);
            assert forall|c: usize|
                #![trigger self@.size_index.dom().contains(c)]
                #![trigger target.size_index.dom().contains(c)]
                self@.size_index.dom().contains(c) == target.size_index.dom().contains(c)
                && (self@.size_index.dom().contains(c)
                    ==> self@.size_index[c] == target.size_index[c]) by {
                if self@.size_index.dom().contains(c) {
                    let s = Set::new(|id: usize| id < gv.len() && gv[id as int].facets.len() == c);
                    assert(i == n && n == gv.len());
                    assert(strictly_sorted(self@.size_index[c]));
                    assert(self@.size_index[c].to_set() =~= Set::new(
                        |id: usize| id < i && gv[id as int].facets.len() == c,
                    ));
                    assert(self@.size_index[c].to_set() =~= s);
                    lemma_id_seq_of(self@.size_index[c]);
                }
            }
            assert forall|c: usize| self@.size_index.dom().contains(c)
                implies strictly_sorted(#[trigger] self@.size_index[c]) by {}
            assert(self@.size_index =~= target.size_index);
            assert forall|f: Seq<char>|
                #![trigger self@.facet_index.dom().contains(f)]
                #![trigger target.facet_index.dom().contains(f)]
                self@.facet_index.dom().contains(f) == target.facet_index.dom().contains(f)
                && (self@.facet_index.dom().contains(f)
                    ==> self@.facet_index[f] == target.facet_index[f]) by {
                if self@.facet_index.dom().contains(f) {
                    let s = Set::new(
                        |id: usize| id < gv.len() && gv[id as int].facets.contains(f),
                    );
                    assert(strictly_sorted(self@.facet_index[f]));
                    assert(self@.facet_index[f].to_set() =~= s);
                    lemma_id_seq_of(self@.facet_index[f]);
                }
            }
            assert forall|f: Seq<char>| self@.facet_index.dom().contains(f)
                implies strictly_sorted(#[trigger] self@.facet_index[f]) by {}
            assert(self@.facet_index =~= target.facet_index);
            assert(self@.gems == gv);
            assert(self@.known == known0);
            assert(everyone@ == all_ids(gv.len()));
            assert(self@.baseline == frequency_map(gv, everyone@));
            assert(self@.baseline == target.baseline);
            assert(self@ == target);
            assert(view_invariant(self@)) by {
                assert(self@.gems == old(self)@.gems);
                assert(self@.known == old(self)@.known);
                assert forall|i2: int|
                    0 <= i2 < self@.gems.len() && (#[trigger] self@.gems[i2]).facets.len() > 0
                    implies self@.size_index.dom().contains(self@.gems[i2].facets.len() as usize)
                        && self@.size_index[self@.gems[i2].facets.len() as usize].contains(
                        i2 as usize,
                    ) by {
                    let c = self@.gems[i2].facets.len() as usize;
                    assert(gv[i2].facets.len() == c);
                    assert(self@.size_index.dom().contains(c));
                    assert(self@.size_index[c].to_set().contains(i2 as usize));
                }
                assert forall|i2: int, f: Seq<char>|
                    0 <= i2 < self@.gems.len() && (#[trigger] self@.gems[i2].facets.contains(f))
                    implies self@.facet_index.dom().contains(f) && self@.facet_index[f].contains(
                        i2 as usize,
                    ) by {
                    assert(self@.facet_index.dom().contains(f));
                    assert(self@.facet_index[f].to_set().contains(i2 as usize));
                }
                assert forall|c: usize, k2: int|
                    self@.size_index.dom().contains(c) && 0 <= k2 < self@.size_index[c].len()
                    implies (#[trigger] self@.size_index[c][k2]) < self@.gems.len()
                        && self@.gems[self@.size_index[c][k2] as int].facets.len() == c by {
                    let id = self@.size_index[c][k2];
                    assert(self@.size_index[c].to_set().contains(id));
                }
                assert forall|f: Seq<char>, k2: int|
                    self@.facet_index.dom().contains(f) && 0 <= k2 < self@.facet_index[f].len()
                    implies (#[trigger] self@.facet_index[f][k2]) < self@.gems.len()
                        && self@.gems[self@.facet_index[f][k2] as int].facets.contains(f) by {
                    let id = self@.facet_index[f][k2];
                    assert(self@.facet_index[f].to_set().contains(id));
                }
            }
        }
    }

    /// Files `id` under size class `count`, creating the class if absent.
    fn size_bucket_insert(&mut self, count: usize, id: usize)
        requires
            distinct_keys(si_pairs(old(self).size_index@)),
            forall|c: usize| old(self)@.size_index.dom().contains(c) ==> strictly_sorted(
                #[trigger] old(self)@.size_index[c],
            ),
        ensures
            final(self).gems == old(self).gems,
            final(self).known_facets == old(self).known_facets,
            final(self).facet_index == old(self).facet_index,
            final(self).frequency_baseline == old(self).frequency_baseline,
            distinct_keys(si_pairs(final(self).size_index@)),
            forall|c: usize| final(self)@.size_index.dom().contains(c) == (
                old(self)@.size_index.dom().contains(c) || c == count),
            forall|c: usize| final(self)@.size_index.dom().contains(c) && c != count
                ==> final(self)@.size_index[c] == old(self)@.size_index[c],
            strictly_sorted(final(self)@.size_index[count]),
            final(self)@.size_index[count].to_set() == (if old(self)@.size_index.dom().contains(
                count,
            ) {
                old(self)@.size_index[count].to_set()
            } else {
                Set::<usize>::empty()
            }).insert(id),
    {
        broadcast use vstd::seq_lib::group_seq_properties;

        let ghost orig = si_pairs(self.size_index@);
        let mut i: usize = 0;
        while i < self.size_index.len()
            invariant
                0 <= i <= self.size_index@.len(),
                self == old(self),
                si_pairs(self.size_index@) == orig,
                forall|k: int| 0 <= k < i ==> (#[trigger] orig[k]).0 != count,
            decreases self.size_index@.len() - i,
        {
            if self.size_index[i].0 == count {
                proof {
                    assert(orig[i as int].0 == count);
                    lemma_assoc_view_lookup(orig, i as int);
                }
                let mut entry = self.size_index.remove(i);
                proof {
                    assert(entry.1@ == orig[i as int].1);
                    assert(old(self)@.size_index.dom().contains(count));
                    assert(strictly_sorted(old(self)@.size_index[count]));
                }
                ids_insert(&mut entry.1, id);
                self.size_index.insert(i, entry);
                proof {
                    let upd = si_pairs(self.size_index@);
                    assert(upd =~= orig.update(i as int, (count, entry.1@)));
                    lemma_assoc_view_update(orig, upd, i as int, entry.1@);
                    assert forall|c: usize| self@.size_index.dom().contains(c) == (
                        old(self)@.size_index.dom().contains(c) || c == count) by {
                        assert(assoc_view(upd).dom() =~= assoc_view(orig).insert(
                            count,
                            entry.1@,
                        ).dom());
                    }
                }
                return;
            }
            assert(orig[i as int].0 == self.size_index@[i as int].0);
            i = i + 1;
        }
        proof {
            lemma_assoc_view_dom(orig, count);
            assert(!old(self)@.size_index.dom().contains(count));
        }
        let mut fresh: Vec<usize> = Vec::new();
        fresh.push(id);
        assert(strictly_sorted(fresh@));
        assert(fresh@.to_set() =~= Set::<usize>::empty().insert(id));
        self.size_index.push((count, fresh));
        proof {
            let upd = si_pairs(self.size_index@);
            assert(upd.len() == orig.len() + 1);
            assert(forall|k: int| 0 <= k < orig.len() ==> upd[k] == orig[k]);
            lemma_assoc_view_push(orig, upd, count, upd.last().1);
        }
    }

    /// Files `id` under the facet entry for `facet_name`, creating it if
    /// absent.
    fn facet_entry_insert(&mut self, facet_name: String, id: usize)
        requires
            distinct_keys(fi_pairs(old(self).facet_index@)),
            forall|f: Seq<char>| old(self)@.facet_index.dom().contains(f) ==> strictly_sorted(
                #[trigger] old(self)@.facet_index[f],
            ),
        ensures
            final(self).gems == old(self).gems,
            final(self).known_facets == old(self).known_facets,
            final(self).size_index == old(self).size_index,
            final(self).frequency_baseline == old(self).frequency_baseline,
            distinct_keys(fi_pairs(final(self).facet_index@)),
            forall|f: Seq<char>| final(self)@.facet_index.dom().contains(f) == (
                old(self)@.facet_index.dom().contains(f) || f == facet_name@),
            forall|f: Seq<char>| final(self)@.facet_index.dom().contains(f) && f != facet_name@
                ==> final(self)@.facet_index[f] == old(self)@.facet_index[f],
            strictly_sorted(final(self)@.facet_index[facet_name@]),
            final(self)@.facet_index[facet_name@].to_set() == (if old(
                self,
            )@.facet_index.dom().contains(facet_name@) {
                old(self)@.facet_index[facet_name@].to_set()
            } else {
                Set::<usize>::empty()
            }).insert(id),
    {
        broadcast use vstd::seq_lib::group_seq_properties;

        let ghost orig = fi_pairs(self.facet_index@);
        let mut i: usize = 0;
        while i < self.facet_index.len()
            invariant
                0 <= i <= self.facet_index@.len(),
                self == old(self),
                fi_pairs(self.facet_index@) == orig,
                forall|k: int| 0 <= k < i ==> (#[trigger] orig[k]).0 != facet_name@,
            decreases self.facet_index@.len() - i,
        {
            if self.facet_index[i].0 == *&facet_name {
                proof {
                    assert(orig[i as int].0 == facet_name@);
                    lemma_assoc_view_lookup(orig, i as int);
                }
                let mut entry = self.facet_index.remove(i);
                proof {
                    assert(entry.1@ == orig[i as int].1);
                    assert(old(self)@.facet_index.dom().contains(facet_name@));
                    assert(strictly_sorted(old(self)@.facet_index[facet_name@]));
                }
                ids_insert(&mut entry.1, id);
                self.facet_index.insert(i, entry);
                proof {
                    let upd = fi_pairs(self.facet_index@);
                    assert(upd =~= orig.update(i as int, (facet_name@, entry.1@)));
                    lemma_assoc_view_update(orig, upd, i as int, entry.1@);
                    assert forall|f: Seq<char>| self@.facet_index.dom().contains(f) == (
                        old(self)@.facet_index.dom().contains(f) || f == facet_name@) by {
                        assert(assoc_view(upd).dom() =~= assoc_view(orig).insert(
                            facet_name@,
                            entry.1@,
                        ).dom());
                    }
                }
                return;
            }
            assert(orig[i as int].0 == self.facet_index@[i as int].0@);
            i = i + 1;
        }
        proof {
            lemma_assoc_view_dom(orig, facet_name@);
            assert(!old(self)@.facet_index.dom().contains(facet_name@));
        }
        let mut fresh: Vec<usize> = Vec::new();
        fresh.push(id);
        assert(strictly_sorted(fresh@));
        assert(fresh@.to_set() =~= Set::<usize>::empty().insert(id));
        self.facet_index.push((facet_name, fresh));
        proof {
            let upd = fi_pairs(self.facet_index@);
            assert(upd.len() == orig.len() + 1);
            assert(forall|k: int| 0 <= k < orig.len() ==> upd[k] == orig[k]);
            lemma_assoc_view_push(orig, upd, upd.last().0, upd.last().1);
        }
    }
}

/// The gem-only part of the invariant: every gem well formed and the sizes
/// within machine bounds.
pub open spec fn view_invariant_base(cv: CollectionView) -> bool {
    &&& cv.gems.len() <= usize::MAX
    &&& forall|i: int| 0 <= i < cv.gems.len() ==> gem_wf(#[trigger] cv.gems[i])
        && cv.gems[i].facets.len() <= usize::MAX
}



/// One round's outcome, at the specification level: either a nominated facet
/// set together with the collection state after Step E, or a terminal
/// condition that leaves the state untouched.
pub ghost enum RoundOutcome {
    Nominated { facets: Seq<Seq<char>>, next: CollectionView },
    Exhausted,
    NoViableSelection,
}

/// The unknown-facet counts under which at least one gem is filed, minus an
/// excluded count.
pub open spec fn considered_counts(cv: CollectionView, exclude: Option<usize>) -> Set<usize> {
    Set::new(
        |c: usize| cv.size_index.dom().contains(c) && cv.size_index[c].len() > 0 && exclude
            != Some(c),
    )
}

/// The least element of a set of counts (meaningful when one exists).
pub open spec fn set_min(s: Set<usize>) -> usize {
    choose|m: usize| s.contains(m) && forall|x: usize| s.contains(x) ==> m <= x
}

/// Whether the gem still lists any of the nominated facets.
pub open spec fn gem_hit(g: GemView, nominated: Seq<Seq<char>>) -> bool {
    exists|k: int| 0 <= k < nominated.len() && g.facets.contains(#[trigger] nominated[k])
}

/// The ids of every gem that lists any nominated facet: the gems Step E
/// mutates.
pub open spec fn impacted_ids(cv: CollectionView, nominated: Seq<Seq<char>>) -> Set<usize> {
    Set::new(|id: usize| id < cv.gems.len() && gem_hit(cv.gems[id as int], nominated))
}

/// A gem after the nominated facets are taught.
pub open spec fn stripped_gem(g: GemView, nominated: Seq<Seq<char>>) -> GemView {
    GemView { sides: g.sides, facets: strip_facets(g.facets, nominated) }
}

/// A gem's unknown-facet count after the nominated facets are taught.
pub open spec fn count_after(cv: CollectionView, nominated: Seq<Seq<char>>, id: usize) -> nat {
    strip_facets(cv.gems[id as int].facets, nominated).len()
}

/// The ids filed under count `c` once the gems of `pset` have been refiled:
/// the old class minus `pset`, plus every id of `pset` whose new count is
/// `c`.
pub open spec fn bucket_partial(
    cv: CollectionView,
    nominated: Seq<Seq<char>>,
    pset: Set<usize>,
    c: usize,
) -> Set<usize> {
    Set::new(
        |id: usize| (cv.size_index.dom().contains(c) && cv.size_index[c].contains(id)
            && !pset.contains(id)) || (pset.contains(id) && count_after(cv, nominated, id) == c),
    )
}

/// The ids filed under count `c` after Step E: the survivors of the old
/// class, plus every impacted gem whose new count is `c`.
pub open spec fn bucket_after(cv: CollectionView, nominated: Seq<Seq<char>>, c: usize) -> Set<
    usize,
> {
    bucket_partial(cv, nominated, impacted_ids(cv, nominated), c)
}

/// `s` with every id of `banned` removed, the rest kept in order.
pub open spec fn ids_excluding(s: Seq<usize>, banned: Set<usize>) -> Seq<usize>
    decreases s.len(),
{
    if s.len() == 0 {
        Seq::empty()
    } else {
        let r = ids_excluding(s.drop_last(), banned);
        if banned.contains(s.last()) {
            r
        } else {
            r.push(s.last())
        }
    }
}

/// Exclusion keeps order, sortedness, and exactly the ids that are not
/// banned.
pub proof fn lemma_ids_excluding(s: Seq<usize>, banned: Set<usize>)
    ensures
        forall|x: usize| ids_excluding(s, banned).contains(x) == (s.contains(x)
            && !banned.contains(x)),
        ids_excluding(s, banned).len() <= s.len(),
        strictly_sorted(s) ==> strictly_sorted(ids_excluding(s, banned)),
    decreases s.len(),
{
    broadcast use vstd::seq_lib::group_seq_properties;

    if s.len() == 0 {
        assert(forall|x: usize| !s.contains(x));
        assert(forall|x: usize| !ids_excluding(s, banned).contains(x));
    } else {
        let d = s.drop_last();
        lemma_ids_excluding(d, banned);
        let rest = ids_excluding(d, banned);
        assert forall|x: usize| s.contains(x) == (d.contains(x) || x == s.last()) by {
            if s.contains(x) {
                let i = choose|i: int| 0 <= i < s.len() && s[i] == x;
                if i < s.len() - 1 {
                    assert(d[i] == x);
                }
            } else {
                if d.contains(x) {
                    let i = choose|i: int| 0 <= i < d.len() && d[i] == x;
                    assert(s[i] == x);
                }
                assert(s[s.len() - 1] == s.last());
            }
        }
        if !banned.contains(s.last()) {
            let r = rest.push(s.last());
            assert forall|x: usize| r.contains(x) == (s.contains(x) && !banned.contains(x)) by {
                if r.contains(x) {
                    let i = choose|i: int| 0 <= i < r.len() && r[i] == x;
                    if i < r.len() - 1 {
                        assert(rest.contains(x));
                    }
                } else {
                    if rest.contains(x) {
                        let i = choose|i: int| 0 <= i < rest.len() && rest[i] == x;
                        assert(r[i] == x);
                    }
                    assert(r.last() == s.last());
                }
            }
            if strictly_sorted(s) {
                assert(strictly_sorted(d));
                assert forall|a: int, b: int| 0 <= a < b < r.len() implies r[a] < r[b] by {
                    if b == r.len() - 1 {
                        assert(rest.contains(r[a]));
                        assert(d.contains(r[a]));
                        let k = choose|k: int| 0 <= k < d.len() && d[k] == r[a];
                        assert(s[k] < s[s.len() - 1]);
                    }
                }
            }
        } else {
            if strictly_sorted(s) {
                assert(strictly_sorted(d));
            }
        }
    }
}

/// The collection state after teaching `nominated`: every impacted gem is
/// stripped and refiled under its new count, the nominated facets lose their
/// impacted holders in the facet index, and the nominated names join the
/// taught set.  The baseline is untouched.
#[verifier::opaque]
pub open spec fn spec_apply(cv: CollectionView, nominated: Seq<Seq<char>>) -> CollectionView {
    let hit = impacted_ids(cv, nominated);
    CollectionView {
        gems: Seq::new(
            cv.gems.len(),
            |i: int| if hit.contains(i as usize) {
                stripped_gem(cv.gems[i], nominated)
            } else {
                cv.gems[i]
            },
        ),
        known: cv.known + nominated,
        size_index: Map::new(
            |c: usize| cv.size_index.dom().contains(c) || exists|id: usize| hit.contains(id)
                && count_after(cv, nominated, id) == c,
            |c: usize| id_seq_of(bucket_after(cv, nominated, c)),
        ),
        facet_index: Map::new(
            |f: Seq<char>| cv.facet_index.dom().contains(f),
            |f: Seq<char>| if nominated.contains(f) {
                ids_excluding(cv.facet_index[f], hit)
            } else {
                cv.facet_index[f]
            },
        ),
        baseline: cv.baseline,
    }
}

/// One full round over a collection state: Step A picks the two smallest
/// nonempty size classes, Step B tallies the larger, Step C selects from the
/// smaller (with the baseline as fallback), and Steps D and E rewrite the
/// state.  With fewer than two classes the round is `Exhausted`; with no
/// positive-weight candidate it is `NoViableSelection`.
#[verifier::opaque]
pub open spec fn spec_round(cv: CollectionView) -> RoundOutcome {
    let ne = considered_counts(cv, None);
    if !(exists|c1: usize, c2: usize| c1 != c2 && ne.contains(c1) && ne.contains(c2)) {
        RoundOutcome::Exhausted
    } else {
        let k1 = set_min(ne);
        let k2 = set_min(considered_counts(cv, Some(k1)));
        let cands = cv.size_index[k1];
        let support = cv.size_index[k2];
        let local = frequency_map(cv.gems, support);
        let nominated = spec_choose(cv.gems, cv.baseline, cands, local);
        if nominated.len() == 0 {
            RoundOutcome::NoViableSelection
        } else {
            RoundOutcome::Nominated { facets: nominated, next: spec_apply(cv, nominated) }
        }
    }
}

impl GemCollection {
    /// The least count with a nonempty size class, the excluded one left
    /// aside; `None` when no such class exists.
    fn min_nonempty_count(&self, exclude: Option<usize>) -> (r: Option<usize>)
        requires
            self.inv(),
        ensures
            match r {
                Some(k) => considered_counts(self@, exclude).contains(k) && forall|x: usize|
                    considered_counts(self@, exclude).contains(x) ==> k <= x,
                None => forall|x: usize| !considered_counts(self@, exclude).contains(x),
            },
    {
        let ghost cons = considered_counts(self@, exclude);
        let mut best: Option<usize> = None;
        let mut idx: usize = 0;
        while idx < self.size_index.len()
            invariant
                0 <= idx <= self.size_index@.len(),
                self.inv(),
                cons == considered_counts(self@, exclude),
                match best {
                    Some(k) => cons.contains(k) && forall|j: int|
                        0 <= j < idx && (#[trigger] si_pairs(self.size_index@)[j]).1.len() > 0
                            && exclude != Some(si_pairs(self.size_index@)[j].0)
                            ==> k <= si_pairs(self.size_index@)[j].0,
                    None => forall|j: int|
                        0 <= j < idx ==> (#[trigger] si_pairs(self.size_index@)[j]).1.len() == 0
                            || exclude == Some(si_pairs(self.size_index@)[j].0),
                },
            decreases self.size_index@.len() - idx,
        {
            let cnt = self.size_index[idx].0;
            let nonempty = self.size_index[idx].1.len() > 0;
            let excluded = match exclude {
                Some(e) => e == cnt,
                None => false,
            };
            proof {
                assert(si_pairs(self.size_index@)[idx as int]
                    == (self.size_index@[idx as int].0, self.size_index@[idx as int].1@));
            }
            if nonempty && !excluded {
                proof {
                    lemma_assoc_view_lookup(si_pairs(self.size_index@), idx as int);
                    assert(cons.contains(cnt));
                }
                match best {
                    None => {
                        best = Some(cnt);
                    },
                    Some(b) => {
                        if cnt < b {
                            best = Some(cnt);
                        }
                    },
                }
            }
            idx = idx + 1;
        }
        proof {
            match best {
                Some(k) => {
                    assert forall|x: usize| cons.contains(x) implies k <= x by {
                        lemma_assoc_view_dom(si_pairs(self.size_index@), x);
                        let j = choose|j: int| 0 <= j < si_pairs(self.size_index@).len() && (
                        #[trigger] si_pairs(self.size_index@)[j]).0 == x;
                        lemma_assoc_view_lookup(si_pairs(self.size_index@), j);
                        assert(si_pairs(self.size_index@)[j].1.len() > 0);
                    }
                },
                None => {
                    assert forall|x: usize| !cons.contains(x) by {
                        if cons.contains(x) {
                            lemma_assoc_view_dom(si_pairs(self.size_index@), x);
                            let j = choose|j: int| 0 <= j < si_pairs(self.size_index@).len() && (
                            #[trigger] si_pairs(self.size_index@)[j]).0 == x;
                            lemma_assoc_view_lookup(si_pairs(self.size_index@), j);
                        }
                    }
                },
            }
        }
        best
    }

    /// Takes `id` out of the size class for `count`; the class stays listed
    /// even when it empties.
    fn size_bucket_remove(&mut self, count: usize, id: usize)
        requires
            distinct_keys(si_pairs(old(self).size_index@)),
            old(self)@.size_index.dom().contains(count),
            forall|c: usize| old(self)@.size_index.dom().contains(c) ==> strictly_sorted(
                #[trigger] old(self)@.size_index[c],
            ),
        ensures
            final(self).gems == old(self).gems,
            final(self).known_facets == old(self).known_facets,
            final(self).facet_index == old(self).facet_index,
            final(self).frequency_baseline == old(self).frequency_baseline,
            distinct_keys(si_pairs(final(self).size_index@)),
            final(self)@.size_index.dom() == old(self)@.size_index.dom(),
            forall|c: usize| final(self)@.size_index.dom().contains(c) && c != count
                ==> final(self)@.size_index[c] == old(self)@.size_index[c],
            strictly_sorted(final(self)@.size_index[count]),
            final(self)@.size_index[count].to_set() == old(self)@.size_index[count].to_set()
                .remove(id),
    {
        broadcast use vstd::seq_lib::group_seq_properties;

        let ghost orig = si_pairs(self.size_index@);
        proof {
            lemma_assoc_view_dom(orig, count);
        }
        let mut i: usize = 0;
        while i < self.size_index.len()
            invariant
                0 <= i <= self.size_index@.len(),
                self == old(self),
                si_pairs(self.size_index@) == orig,
                forall|k: int| 0 <= k < i ==> (#[trigger] orig[k]).0 != count,
            decreases self.size_index@.len() - i,
        {
            if self.size_index[i].0 == count {
                proof {
                    assert(orig[i as int].0 == count);
                    lemma_assoc_view_lookup(orig, i as int);
                }
                let mut entry = self.size_index.remove(i);
                proof {
                    assert(entry.1@ == orig[i as int].1);
                    assert(strictly_sorted(old(self)@.size_index[count]));
                }
                crate::ids::ids_remove(&mut entry.1, id);
                self.size_index.insert(i, entry);
                proof {
                    let upd = si_pairs(self.size_index@);
                    assert(upd =~= orig.update(i as int, (count, entry.1@)));
                    lemma_assoc_view_update(orig, upd, i as int, entry.1@);
                    assert(self@.size_index.dom() =~= old(self)@.size_index.dom());
                }
                return;
            }
            assert(orig[i as int].0 == self.size_index@[i as int].0);
            i = i + 1;
        }
        proof {
            assert(forall|k: int| 0 <= k < orig.len() ==> (#[trigger] orig[k]).0 != count);
            assert(!old(self)@.size_index.dom().contains(count));
            assert(false);
        }
    }

    /// Replaces the id list of the facet entry for `facet` with the same list
    /// minus every id in `banned`.
    fn facet_entry_exclude(&mut self, facet: &String, banned: &Vec<usize>)
        requires
            distinct_keys(fi_pairs(old(self).facet_index@)),
            old(self)@.facet_index.dom().contains(facet@),
        ensures
            final(self).gems == old(self).gems,
            final(self).known_facets == old(self).known_facets,
            final(self).size_index == old(self).size_index,
            final(self).frequency_baseline == old(self).frequency_baseline,
            distinct_keys(fi_pairs(final(self).facet_index@)),
            final(self)@.facet_index.dom() == old(self)@.facet_index.dom(),
            forall|f: Seq<char>| final(self)@.facet_index.dom().contains(f) && f != facet@
                ==> final(self)@.facet_index[f] == old(self)@.facet_index[f],
            final(self)@.facet_index[facet@] == ids_excluding(
                old(self)@.facet_index[facet@],
                banned@.to_set(),
            ),
    {
        broadcast use vstd::seq_lib::group_seq_properties;

        let ghost orig = fi_pairs(self.facet_index@);
        proof {
            lemma_assoc_view_dom(orig, facet@);
        }
        let mut i: usize = 0;
        while i < self.facet_index.len()
            invariant
                0 <= i <= self.facet_index@.len(),
                self == old(self),
                fi_pairs(self.facet_index@) == orig,
                forall|k: int| 0 <= k < i ==> (#[trigger] orig[k]).0 != facet@,
            decreases self.facet_index@.len() - i,
        {
            if self.facet_index[i].0 == *facet {
                proof {
                    assert(orig[i as int].0 == facet@);
                    lemma_assoc_view_lookup(orig, i as int);
                }
                let entry = self.facet_index.remove(i);
                let ghost evs = entry.1@;
                let mut kept: Vec<usize> = Vec::new();
                let mut j: usize = 0;
                while j < entry.1.len()
                    invariant
                        0 <= j <= entry.1@.len(),
                        entry.1@ == evs,
                        kept@ == ids_excluding(evs.take(j as int), banned@.to_set()),
                    decreases entry.1@.len() - j,
                {
                    let banned_here = crate::ids::ids_contain(banned, entry.1[j]);
                    if !banned_here {
                        kept.push(entry.1[j]);
                    }
                    proof {
                        assert(evs.take(j + 1).drop_last() == evs.take(j as int));
                        assert(evs.take(j + 1).last() == evs[j as int]);
                    }
                    j = j + 1;
                }
                assert(evs.take(evs.len() as int) == evs);
                self.facet_index.insert(i, (entry.0, kept));
                proof {
                    let upd = fi_pairs(self.facet_index@);
                    assert(evs == orig[i as int].1);
                    assert(upd =~= orig.update(i as int, (facet@, kept@)));
                    lemma_assoc_view_update(orig, upd, i as int, kept@);
                    assert(self@.facet_index.dom() =~= old(self)@.facet_index.dom());
                }
                return;
            }
            assert(orig[i as int].0 == self.facet_index@[i as int].0@);
            i = i + 1;
        }
        proof {
            assert(forall|k: int| 0 <= k < orig.len() ==> (#[trigger] orig[k]).0 != facet@);
            assert(!old(self)@.facet_index.dom().contains(facet@));
            assert(false);
        }
    }
}

/// Carries the facts established after Step E's first phase over to the
/// final state, whose facet index and taught set were rewritten afterwards.
proof fn lemma_round_bridge(
    pre: CollectionView,
    nom: Seq<Seq<char>>,
    b: usize,
    hit: Set<usize>,
    post_e1: CollectionView,
    post: CollectionView,
)
    requires
        view_invariant(pre),
        nom.len() > 0,
        b < pre.gems.len(),
        nom == pre.gems[b as int].facets,
        hit == impacted_ids(pre, nom),
        post_e1.gems.len() == pre.gems.len(),
        forall|g: int| 0 <= g < pre.gems.len() && !hit.contains(g as usize)
            ==> #[trigger] post_e1.gems[g] == pre.gems[g],
        forall|g: int| 0 <= g < pre.gems.len() && hit.contains(g as usize)
            ==> #[trigger] post_e1.gems[g] == stripped_gem(pre.gems[g], nom),
        forall|c: usize| #[trigger] post_e1.size_index.dom().contains(c) == (
            pre.size_index.dom().contains(c) || exists|id2: usize| hit.contains(id2)
                && count_after(pre, nom, id2) == c),
        forall|c: usize| post_e1.size_index.dom().contains(c) ==> strictly_sorted(
            #[trigger] post_e1.size_index[c],
        ) && post_e1.size_index[c].to_set() == bucket_after(pre, nom, c),
        post.gems == post_e1.gems,
        post.size_index == post_e1.size_index,
        post.facet_index.dom() == pre.facet_index.dom(),
        forall|f: Seq<char>| #[trigger] post.facet_index.dom().contains(f)
            ==> post.facet_index[f] == if nom.contains(f) {
                ids_excluding(pre.facet_index[f], hit)
            } else {
                pre.facet_index[f]
            },
        post.known == pre.known + nom,
        post.baseline == pre.baseline,
    ensures
        post == spec_apply(pre, nom),
        view_invariant(post),
        post.gems.len() == pre.gems.len(),
        forall|i: int| 0 <= i < post.gems.len() ==> (#[trigger] post.gems[i]).sides
            == pre.gems[i].sides && post.gems[i].facets.len() <= pre.gems[i].facets.len(),
{
    assert forall|g: int| 0 <= g < pre.gems.len() && !hit.contains(g as usize)
        implies #[trigger] post.gems[g] == pre.gems[g] by {
        assert(post_e1.gems[g] == pre.gems[g]);
    }
    assert forall|g: int| 0 <= g < pre.gems.len() && hit.contains(g as usize)
        implies #[trigger] post.gems[g] == stripped_gem(pre.gems[g], nom) by {
        assert(post_e1.gems[g] == stripped_gem(pre.gems[g], nom));
    }
    assert forall|c: usize| #[trigger] post.size_index.dom().contains(c) == (
        pre.size_index.dom().contains(c) || exists|id2: usize| hit.contains(id2) && count_after(
            pre,
            nom,
            id2,
        ) == c) by {
        assert(post_e1.size_index.dom().contains(c) == (pre.size_index.dom().contains(c)
            || exists|id2: usize| hit.contains(id2) && count_after(pre, nom, id2) == c));
    }
    assert forall|c: usize| post.size_index.dom().contains(c) implies strictly_sorted(
        #[trigger] post.size_index[c],
    ) && post.size_index[c].to_set() == bucket_after(pre, nom, c) by {
        assert(post_e1.size_index.dom().contains(c));
        assert(strictly_sorted(post_e1.size_index[c]));
        assert(post_e1.size_index[c].to_set() == bucket_after(pre, nom, c));
    }
    lemma_round_final(pre, nom, b, hit, post);
}

/// Step A's two scan results are the two smallest nonempty size classes.
proof fn lemma_step_a(cv: CollectionView, k1: usize, k2: usize)
    requires
        considered_counts(cv, None).contains(k1),
        forall|x: usize| considered_counts(cv, None).contains(x) ==> k1 <= x,
        considered_counts(cv, Some(k1)).contains(k2),
        forall|x: usize| considered_counts(cv, Some(k1)).contains(x) ==> k2 <= x,
    ensures
        exists|c1: usize, c2: usize| c1 != c2 && considered_counts(cv, None).contains(c1)
            && considered_counts(cv, None).contains(c2),
        set_min(considered_counts(cv, None)) == k1,
        set_min(considered_counts(cv, Some(k1))) == k2,
        cv.size_index.dom().contains(k1),
        cv.size_index.dom().contains(k2),
        k1 != k2,
{
    let ne = considered_counts(cv, None);
    let ne2 = considered_counts(cv, Some(k1));
    assert(ne.contains(k2) && k1 != k2) by {
        assert(ne2.contains(k2));
    }
    assert(set_min(ne) == k1) by {
        assert(exists|m2: usize| ne.contains(m2) && forall|x: usize| ne.contains(x) ==> m2 <= x)
            by {
            assert(ne.contains(k1) && forall|x: usize| ne.contains(x) ==> k1 <= x);
        }
        let m = set_min(ne);
        assert(ne.contains(m) && forall|x: usize| ne.contains(x) ==> m <= x);
    }
    assert(set_min(ne2) == k2) by {
        assert(exists|m2: usize| ne2.contains(m2) && forall|x: usize| ne2.contains(x) ==> m2 <= x)
            by {
            assert(ne2.contains(k2) && forall|x: usize| ne2.contains(x) ==> k2 <= x);
        }
        let m = set_min(ne2);
        assert(ne2.contains(m) && forall|x: usize| ne2.contains(x) ==> m <= x);
    }
}

/// Assembles Step E's outcome: a post-state whose gems, size classes, facet
/// entries and taught set have the forms the round establishes is exactly
/// `spec_apply`, satisfies the index invariant, and never grows a gem's
/// unknown set.
#[verifier::rlimit(100)]
proof fn lemma_round_final(
    pre: CollectionView,
    nom: Seq<Seq<char>>,
    b: usize,
    hit: Set<usize>,
    post: CollectionView,
)
    requires
        view_invariant(pre),
        nom.len() > 0,
        b < pre.gems.len(),
        nom == pre.gems[b as int].facets,
        hit == impacted_ids(pre, nom),
        post.gems.len() == pre.gems.len(),
        forall|g: int| 0 <= g < pre.gems.len() && !hit.contains(g as usize) ==> #[trigger] post.gems[g] == pre.gems[g],
        forall|g: int| 0 <= g < pre.gems.len() && hit.contains(g as usize) ==> #[trigger] post.gems[g] == stripped_gem(pre.gems[g], nom),
        post.known == pre.known + nom,
        post.baseline == pre.baseline,
        forall|c: usize| #[trigger] post.size_index.dom().contains(c) == (
            pre.size_index.dom().contains(c) || exists|id2: usize| hit.contains(id2)
                && count_after(pre, nom, id2) == c),
        forall|c: usize| post.size_index.dom().contains(c) ==> strictly_sorted(
            #[trigger] post.size_index[c],
        ) && post.size_index[c].to_set() == bucket_after(pre, nom, c),
        post.facet_index.dom() == pre.facet_index.dom(),
        forall|f: Seq<char>| #[trigger] post.facet_index.dom().contains(f)
            ==> post.facet_index[f] == if nom.contains(f) {
                ids_excluding(pre.facet_index[f], hit)
            } else {
                pre.facet_index[f]
            },
    ensures
        post == spec_apply(pre, nom),
        view_invariant(post),
        forall|i: int| 0 <= i < post.gems.len() ==> (#[trigger] post.gems[i]).sides
            == pre.gems[i].sides && post.gems[i].facets.len() <= pre.gems[i].facets.len(),
{
    broadcast use vstd::seq_lib::group_seq_properties;

    let n = pre.gems.len() as int;
    assert(distinct_names(nom)) by {
        assert(gem_wf(pre.gems[b as int]));
    }
    // Every gem keeps its sides, loses at most facets, and stays well formed.
    assert forall|i: int| 0 <= i < n implies (#[trigger] post.gems[i]).sides == pre.gems[i].sides
        && post.gems[i].facets.len() <= pre.gems[i].facets.len() && gem_wf(post.gems[i]) by {
        lemma_strip_facets(pre.gems[i].facets, nom);
        assert(gem_wf(pre.gems[i]));
        if hit.contains(i as usize) {
            assert(post.gems[i] == stripped_gem(pre.gems[i], nom));
        } else {
            assert(post.gems[i] == pre.gems[i]);
        }
    }
    // A cleaner membership fact, used everywhere below.
    assert forall|i: int, f: Seq<char>|
        0 <= i < n implies (#[trigger] post.gems[i].facets.contains(f)) == (
        pre.gems[i].facets.contains(f) && (!hit.contains(i as usize) || !nom.contains(f))) by {
        lemma_strip_facets(pre.gems[i].facets, nom);
        if hit.contains(i as usize) {
            assert(post.gems[i] == stripped_gem(pre.gems[i], nom));
        } else {
            assert(post.gems[i] == pre.gems[i]);
            if pre.gems[i].facets.contains(f) && nom.contains(f) {
                assert(gem_hit(pre.gems[i], nom)) by {
                    let k = choose|k: int| 0 <= k < nom.len() && nom[k] == f;
                }
                assert(hit.contains(i as usize));
            }
        }
    }
    // No gem lists a nominated facet any more.
    assert forall|i: int, k: int| 0 <= i < n && 0 <= k < nom.len()
        implies !(#[trigger] post.gems[i]).facets.contains(#[trigger] nom[k]) by {
        if post.gems[i].facets.contains(nom[k]) {
            assert(pre.gems[i].facets.contains(nom[k]));
            assert(gem_hit(pre.gems[i], nom));
            assert(hit.contains(i as usize));
            assert(nom.contains(nom[k]));
        }
    }
    // Equality with spec_apply, field by field.
    reveal(spec_apply);
    let target = spec_apply(pre, nom);
    assert(post.gems =~= target.gems) by {
        assert forall|i: int| 0 <= i < n implies post.gems[i] == target.gems[i] by {
            if hit.contains(i as usize) {
            } else {
            }
        }
    }
    assert(post.size_index =~= target.size_index) by {
        assert forall|c: usize|
            #![trigger post.size_index.dom().contains(c)]
            #![trigger target.size_index.dom().contains(c)]
            post.size_index.dom().contains(c) == target.size_index.dom().contains(c) && (
            post.size_index.dom().contains(c) ==> post.size_index[c] == target.size_index[c]) by {
            if post.size_index.dom().contains(c) {
                lemma_id_seq_of(post.size_index[c]);
                assert(id_seq_of(bucket_after(pre, nom, c)) == post.size_index[c]);
            }
        }
    }
    assert(post.facet_index =~= target.facet_index) by {
        assert forall|f: Seq<char>|
            #![trigger post.facet_index.dom().contains(f)]
            #![trigger target.facet_index.dom().contains(f)]
            post.facet_index.dom().contains(f) == target.facet_index.dom().contains(f) && (
            post.facet_index.dom().contains(f) ==> post.facet_index[f] == target.facet_index[f])
            by {}
    }
    assert(post == target);
    // The index invariant holds again.
    assert(view_invariant(post)) by {
        assert(post.gems.len() <= usize::MAX);
        assert forall|i: int| 0 <= i < post.gems.len() implies gem_wf(#[trigger] post.gems[i])
            && post.gems[i].facets.len() <= usize::MAX by {}
        assert forall|c: usize, k: int|
            post.size_index.dom().contains(c) && 0 <= k < post.size_index[c].len() implies (
        #[trigger] post.size_index[c][k]) < post.gems.len()
            && post.gems[post.size_index[c][k] as int].facets.len() == c by {
            let id = post.size_index[c][k];
            assert(post.size_index[c].to_set().contains(id));
            assert(bucket_after(pre, nom, c).contains(id));
            if hit.contains(id) && count_after(pre, nom, id) == c {
                assert(id < pre.gems.len());
                assert(post.gems[id as int] == stripped_gem(pre.gems[id as int], nom));
            } else {
                assert(pre.size_index.dom().contains(c) && pre.size_index[c].contains(id)
                    && !hit.contains(id));
                assert(id < pre.gems.len() && pre.gems[id as int].facets.len() == c);
                assert(post.gems[id as int] == pre.gems[id as int]);
            }
        }
        assert forall|i: int|
            0 <= i < post.gems.len() && (#[trigger] post.gems[i]).facets.len() > 0
            implies post.size_index.dom().contains(post.gems[i].facets.len() as usize)
                && post.size_index[post.gems[i].facets.len() as usize].contains(i as usize) by {
            let c = post.gems[i].facets.len() as usize;
            if hit.contains(i as usize) {
                assert(post.gems[i] == stripped_gem(pre.gems[i], nom));
                assert(count_after(pre, nom, i as usize) == c);
                assert(post.size_index.dom().contains(c)) by {
                    assert(hit.contains(i as usize) && count_after(pre, nom, i as usize) == c);
                }
                assert(bucket_after(pre, nom, c).contains(i as usize));
                assert(post.size_index[c].to_set().contains(i as usize));
            } else {
                assert(post.gems[i] == pre.gems[i]);
                assert(pre.gems[i].facets.len() == c && c > 0);
                assert(pre.size_index.dom().contains(c) && pre.size_index[c].contains(i as usize));
                assert(post.size_index.dom().contains(c));
                assert(bucket_after(pre, nom, c).contains(i as usize));
                assert(post.size_index[c].to_set().contains(i as usize));
            }
        }
        assert forall|f: Seq<char>| #[trigger] post.facet_index.dom().contains(f)
            implies strictly_sorted(post.facet_index[f]) by {
            if nom.contains(f) {
                lemma_ids_excluding(pre.facet_index[f], hit);
            }
        }
        assert forall|f: Seq<char>, k: int|
            post.facet_index.dom().contains(f) && 0 <= k < post.facet_index[f].len() implies (
        #[trigger] post.facet_index[f][k]) < post.gems.len()
            && post.gems[post.facet_index[f][k] as int].facets.contains(f) by {
            let id = post.facet_index[f][k];
            if nom.contains(f) {
                lemma_ids_excluding(pre.facet_index[f], hit);
                assert(post.facet_index[f].contains(id));
                assert(pre.facet_index[f].contains(id) && !hit.contains(id));
                assert(pre.gems[id as int].facets.contains(f)) by {
                    let k2 = choose|k2: int| 0 <= k2 < pre.facet_index[f].len()
                        && pre.facet_index[f][k2] == id;
                }
                assert(gem_hit(pre.gems[id as int], nom)) by {
                    let k3 = choose|k3: int| 0 <= k3 < nom.len() && nom[k3] == f;
                }
                assert(false);
            } else {
                assert(post.facet_index[f] == pre.facet_index[f]);
                assert(id < pre.gems.len() && pre.gems[id as int].facets.contains(f));
                assert(post.gems[id as int].facets.contains(f));
            }
        }
        assert forall|i: int, f: Seq<char>|
            0 <= i < post.gems.len() && (#[trigger] post.gems[i].facets.contains(f))
            implies post.facet_index.dom().contains(f) && post.facet_index[f].contains(i as usize)
            by {
            assert(pre.gems[i].facets.contains(f));
            assert(!nom.contains(f)) by {
                if nom.contains(f) {
                    assert(!(!hit.contains(i as usize) || !nom.contains(f)));
                }
            }
            assert(pre.facet_index.dom().contains(f) && pre.facet_index[f].contains(i as usize));
            assert(post.facet_index[f] == pre.facet_index[f]);
        }
        assert(distinct_names(post.known)) by {
            assert forall|a: int, c: int| 0 <= a < c < post.known.len()
                implies post.known[a] != post.known[c] by {
                if c < pre.known.len() {
                    assert(pre.known[a] != pre.known[c]);
                } else if a >= pre.known.len() {
                    assert(post.known[a] == nom[a - pre.known.len()]);
                    assert(post.known[c] == nom[c - pre.known.len()]);
                } else {
                    assert(post.known[a] == pre.known[a]);
                    assert(post.known[c] == nom[c - pre.known.len()]);
                    assert(pre.gems[b as int].facets.contains(nom[c - pre.known.len()]));
                    if pre.known[a] == nom[c - pre.known.len()] {
                        assert(!pre.gems[b as int].facets.contains(pre.known[a]));
                    }
                }
            }
        }
        assert forall|i: int, k: int|
            0 <= i < post.gems.len() && 0 <= k < post.known.len()
            implies !(#[trigger] post.gems[i]).facets.contains(#[trigger] post.known[k]) by {
            if k < pre.known.len() {
                assert(post.known[k] == pre.known[k]);
                if post.gems[i].facets.contains(pre.known[k]) {
                    assert(pre.gems[i].facets.contains(pre.known[k]));
                }
            } else {
                assert(post.known[k] == nom[k - pre.known.len()]);
            }
        }
    }
}

impl GemCollection {
    /// Runs one ordering round: finds the two smallest nonempty size classes,
    /// tallies facet frequencies over the larger, lets the selector nominate a
    /// facet set from the smaller, strips the nominated facets from every gem
    /// holding any of them, refiles each mutated gem under its new count, and
    /// records the nominated names as taught.  Returns the nominated facet
    /// names, or the terminal condition that stopped the round, in which case
    /// the collection is untouched.
    ///
    /// The contract pins the result and the new state to `spec_round`, so two
    /// collections with equal views run identical rounds.  It also states
    /// that every index stays coherent with the gems and that no gem's
    /// unknown-facet set ever grows.
    #[verifier::rlimit(100)]
    pub fn run_round(&mut self) -> (r: Result<Vec<String>, EngineError>)
        requires
            old(self).well_formed(),
        ensures
            final(self).well_formed(),
            final(self)@.gems.len() == old(self)@.gems.len(),
            forall|i: int| 0 <= i < final(self)@.gems.len()
                ==> (#[trigger] final(self)@.gems[i]).sides == old(self)@.gems[i].sides
                && final(self)@.gems[i].facets.len() <= old(self)@.gems[i].facets.len(),
            match spec_round(old(self)@) {
                RoundOutcome::Nominated { facets, next } => r matches Ok(v) && name_views(v@)
                    == facets && final(self)@ == next,
                RoundOutcome::Exhausted => r matches Err(e) && e
                    == EngineError::EmptyCandidateGroup && final(self)@ == old(self)@,
                RoundOutcome::NoViableSelection => r matches Err(e) && e
                    == EngineError::NoViableFacetSelection && final(self)@ == old(self)@,
            },
    {
        broadcast use vstd::seq_lib::group_seq_properties;

        let ghost pre = self@;
        let ghost ne = considered_counts(pre, None);
        // Step A: the two smallest nonempty size classes.
        let k1opt = self.min_nonempty_count(None);
        let k1 = match k1opt {
            None => {
                proof {
                    assert(!(exists|c1: usize, c2: usize| c1 != c2 && ne.contains(c1)
                        && ne.contains(c2)));
                    assert(spec_round(pre) == RoundOutcome::Exhausted) by {
                        reveal(spec_round);
                    }
                }
                return Err(EngineError::EmptyCandidateGroup);
            },
            Some(k) => k,
        };
        let ghost ne2 = considered_counts(pre, Some(k1));
        let k2opt = self.min_nonempty_count(Some(k1));
        let k2 = match k2opt {
            None => {
                proof {
                    assert(!(exists|c1: usize, c2: usize| c1 != c2 && ne.contains(c1)
                        && ne.contains(c2))) by {
                        if exists|c1: usize, c2: usize| c1 != c2 && ne.contains(c1)
                            && ne.contains(c2) {
                            let (c1, c2) = choose|c1: usize, c2: usize| c1 != c2 && ne.contains(
                                c1,
                            ) && ne.contains(c2);
                            if c1 != k1 {
                                assert(ne2.contains(c1));
                            } else {
                                assert(ne2.contains(c2));
                            }
                        }
                    }
                    assert(spec_round(pre) == RoundOutcome::Exhausted) by {
                        reveal(spec_round);
                    }
                }
                return Err(EngineError::EmptyCandidateGroup);
            },
            Some(k) => k,
        };
        proof {
            lemma_step_a(pre, k1, k2);
        }
        // Step B: tally the supporting class.
        let support = self.gems_with_count(k2);
        proof {
            assert(support@ == pre.size_index[k2]);
            assert(strictly_sorted(support@));
            assert forall|k: int| 0 <= k < support@.len() implies #[trigger] support@[k]
                < pre.gems.len() by {
                assert(pre.size_index[k2][k] < pre.gems.len());
            }
        }
        let freq = self.create_frequency_hashmap_from_facets_of_n2_gem_indices(&support);
        // Step C: nominate from the target class.
        let cands = self.gems_with_count(k1);
        proof {
            assert(cands@ == pre.size_index[k1]);
            assert forall|k: int| 0 <= k < cands@.len() implies #[trigger] cands@[k]
                < pre.gems.len() by {
                assert(pre.size_index[k1][k] < pre.gems.len());
            }
        }
        let nominated = self.choose_max_n1_gem_facets_by_frequency_hashmap(&cands, &freq, 2);
        let ghost nom = name_views(nominated@);
        proof {
            assert(nom == spec_choose(pre.gems, pre.baseline, cands@, freq@));
            assert(nom.len() == nominated@.len());
        }
        if nominated.len() == 0 {
            proof {
                assert(spec_round(pre) == RoundOutcome::NoViableSelection) by {
                    reveal(spec_round);
                }
            }
            return Err(EngineError::NoViableFacetSelection);
        }
        proof {
            assert(spec_round(pre) == RoundOutcome::Nominated {
                facets: nom,
                next: spec_apply(pre, nom),
            }) by {
                reveal(spec_round);
            }
        }
        // The nominated set is the whole facet set of one well-formed gem.
        let ghost local_pick = crate::select::select_best(pre.gems, freq@, cands@, None::<usize>);
        let ghost fallback_pick = crate::select::select_best(
            pre.gems,
            pre.baseline,
            cands@,
            None::<usize>,
        );
        let ghost b: usize = if local_pick is Some {
            local_pick.unwrap()
        } else {
            fallback_pick.unwrap()
        };
        proof {
            if local_pick is Some {
                crate::select::lemma_select_best_in_candidates(pre.gems, freq@, cands@);
            } else {
                if fallback_pick is None {
                    assert(nom.len() == 0);
                }
                crate::select::lemma_select_best_in_candidates(pre.gems, pre.baseline, cands@);
            }
            assert(b < pre.gems.len());
            assert(nom == pre.gems[b as int].facets);
            assert(distinct_names(nom));
            assert forall|k: int| 0 <= k < nom.len() implies pre.facet_index.dom().contains(
                #[trigger] nom[k],
            ) by {
                assert(pre.gems[b as int].facets.contains(nom[k]));
            }
        }
        self.apply_nomination(&nominated, Ghost(b));
        proof {
            assert(self@ == spec_apply(pre, nom));
        }
        Ok(nominated)
    }

    /// Steps D and E of a round: strips the nominated facets (the facet set
    /// of gem `b`) from every gem holding any of them, refiles each mutated
    /// gem under its new count, prunes the facet index, and records the
    /// nominated names as taught.
    #[verifier::rlimit(100)]
    fn apply_nomination(&mut self, nominated: &Vec<String>, Ghost(b): Ghost<usize>)
        requires
            old(self).well_formed(),
            b < old(self)@.gems.len(),
            name_views(nominated@) == old(self)@.gems[b as int].facets,
            nominated@.len() > 0,
        ensures
            final(self).well_formed(),
            final(self)@ == spec_apply(old(self)@, name_views(nominated@)),
            final(self)@.gems.len() == old(self)@.gems.len(),
            forall|i: int| 0 <= i < final(self)@.gems.len()
                ==> (#[trigger] final(self)@.gems[i]).sides == old(self)@.gems[i].sides
                && final(self)@.gems[i].facets.len() <= old(self)@.gems[i].facets.len(),
    {
        broadcast use vstd::seq_lib::group_seq_properties;

        let ghost pre = self@;
        let ghost nom = name_views(nominated@);
        proof {
            assert(distinct_names(nom)) by {
                assert(gem_wf(pre.gems[b as int]));
            }
            assert forall|k: int| 0 <= k < nom.len() implies pre.facet_index.dom().contains(
                #[trigger] nom[k],
            ) by {
                assert(pre.gems[b as int].facets.contains(nom[k]));
            }
        }
        // Step D: every gem holding any nominated facet.
        let ghost hit = impacted_ids(pre, nom);
        let mut impacted: Vec<usize> = Vec::new();
        proof {
            assert(impacted@.to_set() =~= Set::<usize>::empty());
        }
        let mut t: usize = 0;
        while t < nominated.len()
            invariant
                0 <= t <= nominated@.len(),
                *self == *old(self),
                pre == self@,
                self.well_formed(),
                nom == name_views(nominated@),
                nominated@.len() == nom.len(),
                b < pre.gems.len(),
                nom == pre.gems[b as int].facets,
                strictly_sorted(impacted@),
                forall|k: int| 0 <= k < impacted@.len() ==> #[trigger] impacted@[k]
                    < pre.gems.len(),
                impacted@.to_set() =~= Set::new(
                    |id: usize| id < pre.gems.len() && gem_hit(
                        pre.gems[id as int],
                        nom.take(t as int),
                    ),
                ),
            decreases nominated@.len() - t,
        {
            proof {
                assert(nom[t as int] == nominated@[t as int]@);
                assert(pre.gems[b as int].facets.contains(nom[t as int]));
                assert(pre.facet_index.dom().contains(nom[t as int]));
            }
            let entry_ids = self.gems_with_facet(&nominated[t]);
            proof {
                assert(entry_ids@ == pre.facet_index[nom[t as int]]);
                assert(strictly_sorted(entry_ids@));
            }
            let ghost before = impacted@;
            impacted = crate::ids::ids_union(&impacted, &entry_ids);
            proof {
                let f = nom[t as int];
                assert forall|k: int| 0 <= k < impacted@.len() implies #[trigger] impacted@[k]
                    < pre.gems.len() by {
                    let id = impacted@[k];
                    assert(impacted@.to_set().contains(id));
                    if before.to_set().contains(id) {
                        assert(before.contains(id));
                    } else {
                        assert(entry_ids@.to_set().contains(id));
                        assert(entry_ids@.contains(id));
                        let k2 = choose|k2: int| 0 <= k2 < entry_ids@.len() && entry_ids@[k2]
                            == id;
                        assert(pre.facet_index[f][k2] < pre.gems.len());
                    }
                }
                assert(impacted@.to_set() =~= Set::new(
                    |id: usize| id < pre.gems.len() && gem_hit(
                        pre.gems[id as int],
                        nom.take(t + 1),
                    ),
                )) by {
                    let p1 = nom.take(t + 1);
                    let p0 = nom.take(t as int);
                    assert forall|id: usize| impacted@.to_set().contains(id) == (id
                        < pre.gems.len() && gem_hit(pre.gems[id as int], p1)) by {
                        assert(p1.drop_last() == p0);
                        assert(p1.last() == f);
                        if impacted@.to_set().contains(id) {
                            if before.to_set().contains(id) {
                                assert(gem_hit(pre.gems[id as int], p0));
                                let k = choose|k: int| 0 <= k < p0.len()
                                    && pre.gems[id as int].facets.contains(#[trigger] p0[k]);
                                assert(p1[k] == p0[k]);
                                assert(gem_hit(pre.gems[id as int], p1));
                            } else {
                                assert(entry_ids@.to_set().contains(id));
                                assert(entry_ids@.contains(id));
                                let k2 = choose|k2: int| 0 <= k2 < entry_ids@.len()
                                    && entry_ids@[k2] == id;
                                assert(pre.facet_index[f][k2] == id);
                                assert(pre.gems[id as int].facets.contains(f));
                                assert(p1[t as int] == f);
                                assert(gem_hit(pre.gems[id as int], p1));
                                assert(pre.facet_index[f][k2] < pre.gems.len());
                            }
                        } else {
                            if id < pre.gems.len() && gem_hit(pre.gems[id as int], p1) {
                                let k = choose|k: int| 0 <= k < p1.len()
                                    && pre.gems[id as int].facets.contains(#[trigger] p1[k]);
                                if k < t {
                                    assert(p0[k] == p1[k]);
                                    assert(gem_hit(pre.gems[id as int], p0));
                                    assert(before.to_set().contains(id));
                                } else {
                                    assert(pre.gems[id as int].facets.contains(f));
                                    assert(pre.facet_index[f].contains(id));
                                    assert(entry_ids@.to_set().contains(id));
                                }
                                assert(false);
                            }
                        }
                    }
                }
            }
            t = t + 1;
        }
        proof {
            assert(nom.take(nom.len() as int) == nom);
            assert(impacted@.to_set() =~= hit);
        }
        // Step E: strip each impacted gem and refile it under its new count.
        let ghost iv = impacted@;
        let n = self.gems.len();
        let mut idx: usize = 0;
        while idx < impacted.len()
            invariant
                0 <= idx <= iv.len(),
                impacted@ == iv,
                strictly_sorted(iv),
                iv.to_set() == hit,
                forall|k: int| 0 <= k < iv.len() ==> #[trigger] iv[k] < n,
                n == self.gems@.len(),
                n == pre.gems.len(),
                nom == name_views(nominated@),
                self.facet_index == old(self).facet_index,
                self.known_facets == old(self).known_facets,
                self.frequency_baseline == old(self).frequency_baseline,
                self@.facet_index == pre.facet_index,
                self@.known == pre.known,
                self@.baseline == pre.baseline,
                view_invariant(pre),
                self.inv(),
                hit == impacted_ids(pre, nom),
                forall|g2: int| 0 <= g2 < n && !iv.take(idx as int).to_set().contains(g2 as usize)
                    ==> #[trigger] self@.gems[g2] == pre.gems[g2],
                forall|g2: int| 0 <= g2 < n && iv.take(idx as int).to_set().contains(g2 as usize)
                    ==> #[trigger] self@.gems[g2] == stripped_gem(pre.gems[g2], nom),
                forall|c: usize| #[trigger] self@.size_index.dom().contains(c) == (
                    pre.size_index.dom().contains(c) || exists|id2: usize| iv.take(
                        idx as int,
                    ).to_set().contains(id2) && count_after(pre, nom, id2) == c),
                forall|c: usize| self@.size_index.dom().contains(c) ==> strictly_sorted(
                    #[trigger] self@.size_index[c],
                ) && self@.size_index[c].to_set() =~= bucket_partial(
                    pre,
                    nom,
                    iv.take(idx as int).to_set(),
                    c,
                ),
            decreases iv.len() - idx,
        {
            let id = impacted[idx];
            let ghost pset = iv.take(idx as int).to_set();
            let ghost pset2 = iv.take(idx + 1).to_set();
            proof {
                assert(iv.take(idx + 1) == iv.take(idx as int).push(id));
                assert(pset2 =~= pset.insert(id));
                assert(!pset.contains(id)) by {
                    if iv.take(idx as int).contains(id) {
                        let k = choose|k: int| 0 <= k < idx && iv.take(idx as int)[k] == id;
                        assert(iv[k] == iv[idx as int]);
                    }
                }
                assert(self@.gems[id as int] == pre.gems[id as int]);
                assert(hit.contains(id)) by {
                    assert(iv[idx as int] == id);
                }
                assert(gem_hit(pre.gems[id as int], nom));
                assert(pre.gems[id as int].facets.len() > 0) by {
                    let k = choose|k: int| 0 <= k < nom.len()
                        && pre.gems[id as int].facets.contains(#[trigger] nom[k]);
                    let j = choose|j: int| 0 <= j < pre.gems[id as int].facets.len()
                        && pre.gems[id as int].facets[j] == nom[k];
                }
                assert(gem_views(self.gems@)[id as int] == self.gems@[id as int]@);
            }
            let ghost s0 = self@;
            let cnt = self.gems[id].unknown_count();
            proof {
                assert(cnt == pre.gems[id as int].facets.len());
                assert(pre.size_index.dom().contains(cnt));
                assert(pre.size_index[cnt].contains(id));
                assert(self@.size_index.dom().contains(cnt));
            }
            self.size_bucket_remove(cnt, id);
            let ghost s1 = self@;
            let ghost gsnap = self.gems@;
            let mut g = self.gems.remove(id);
            g.strip(&nominated);
            let newc = g.unknown_count();
            self.gems.insert(id, g);
            let ghost s2 = self@;
            proof {
                assert(self.gems@ =~= gsnap.update(id as int, self.gems@[id as int]));
                assert(gem_views(self.gems@)[id as int] == self.gems@[id as int]@);
                assert(s2.gems[id as int] == stripped_gem(pre.gems[id as int], nom)) by {
                    assert(gsnap[id as int]@ == pre.gems[id as int]);
                }
                assert(newc == count_after(pre, nom, id));
                assert forall|g2: int| 0 <= g2 < n && g2 != id implies #[trigger] s2.gems[g2]
                    == s1.gems[g2] by {
                    assert(self.gems@[g2] == gsnap[g2]);
                }
                assert(s2.size_index == s1.size_index);
                assert(s1.size_index.dom() == s0.size_index.dom());
                assert forall|c: usize| s2.size_index.dom().contains(c)
                    implies strictly_sorted(#[trigger] s2.size_index[c]) by {
                    if c != cnt {
                        assert(s1.size_index[c] == s0.size_index[c]);
                        assert(strictly_sorted(s0.size_index[c]));
                    }
                }
            }
            self.size_bucket_insert(newc, id);
            proof {
                let after = self@;
                assert(after.gems == s2.gems);
                assert(after.facet_index == pre.facet_index);
                assert(after.known == pre.known);
                assert(after.baseline == pre.baseline);
                assert forall|g2: int| 0 <= g2 < n && !pset2.contains(g2 as usize)
                    implies #[trigger] after.gems[g2] == pre.gems[g2] by {
                    assert(g2 != id);
                    assert(!pset.contains(g2 as usize));
                    assert(s2.gems[g2] == s1.gems[g2]);
                }
                assert forall|g2: int| 0 <= g2 < n && pset2.contains(g2 as usize)
                    implies #[trigger] after.gems[g2] == stripped_gem(pre.gems[g2], nom) by {
                    if g2 != id {
                        assert(pset.contains(g2 as usize));
                        assert(s2.gems[g2] == s1.gems[g2]);
                    }
                }
                assert forall|c: usize| #[trigger] after.size_index.dom().contains(c) == (
                    pre.size_index.dom().contains(c) || exists|id2: usize| pset2.contains(id2)
                        && count_after(pre, nom, id2) == c) by {
                    if after.size_index.dom().contains(c) {
                        if c == newc {
                            assert(pset2.contains(id) && count_after(pre, nom, id) == c);
                        } else {
                            assert(s2.size_index.dom().contains(c));
                            if !pre.size_index.dom().contains(c) {
                                let id2 = choose|id2: usize| pset.contains(id2) && count_after(
                                    pre,
                                    nom,
                                    id2,
                                ) == c;
                                assert(pset2.contains(id2) && count_after(pre, nom, id2) == c);
                            }
                        }
                    } else {
                        assert(c != newc);
                        assert(!s2.size_index.dom().contains(c));
                        assert(!pre.size_index.dom().contains(c));
                        if exists|id2: usize| pset2.contains(id2) && count_after(pre, nom, id2)
                            == c {
                            let id2 = choose|id2: usize| pset2.contains(id2) && count_after(
                                pre,
                                nom,
                                id2,
                            ) == c;
                            assert(id2 != id);
                            assert(pset.contains(id2));
                            assert(s2.size_index.dom().contains(c));
                            assert(false);
                        }
                    }
                }
                assert forall|c: usize| after.size_index.dom().contains(c)
                    implies strictly_sorted(#[trigger] after.size_index[c])
                        && after.size_index[c].to_set() =~= bucket_partial(pre, nom, pset2, c) by {
                    let target = bucket_partial(pre, nom, pset2, c);
                    if c == newc {
                        let basis = if s2.size_index.dom().contains(newc) {
                            s2.size_index[newc].to_set()
                        } else {
                            Set::<usize>::empty()
                        };
                        assert(after.size_index[c].to_set() == basis.insert(id));
                        assert forall|id2: usize| basis.insert(id).contains(id2)
                            == target.contains(id2) by {
                            if id2 == id {
                                assert(pset2.contains(id) && count_after(pre, nom, id) == c);
                            } else {
                                if s2.size_index.dom().contains(newc) {
                                    if newc == cnt {
                                        assert(s2.size_index[cnt].to_set()
                                            == s0.size_index[cnt].to_set().remove(id));
                                        assert(s0.size_index[cnt].to_set() =~= bucket_partial(
                                            pre,
                                            nom,
                                            pset,
                                            cnt,
                                        ));
                                        assert(basis.contains(id2) == bucket_partial(
                                            pre,
                                            nom,
                                            pset,
                                            c,
                                        ).contains(id2));
                                    } else {
                                        assert(s2.size_index[newc] == s0.size_index[newc]);
                                        assert(s0.size_index[newc].to_set() =~= bucket_partial(
                                            pre,
                                            nom,
                                            pset,
                                            c,
                                        ));
                                    }
                                    assert(bucket_partial(pre, nom, pset, c).contains(id2)
                                        == target.contains(id2));
                                } else {
                                    assert(!basis.contains(id2));
                                    assert(!pre.size_index.dom().contains(c)) by {
                                        assert(!s0.size_index.dom().contains(c));
                                    }
                                    if target.contains(id2) {
                                        assert(pset.contains(id2) && count_after(pre, nom, id2)
                                            == c);
                                        assert(s0.size_index.dom().contains(c));
                                        assert(false);
                                    }
                                }
                            }
                        }
                        assert(after.size_index[c].to_set() =~= target);
                    } else {
                        assert(after.size_index[c] == s2.size_index[c]);
                        assert(s2.size_index.dom().contains(c));
                        if c == cnt {
                            assert(s2.size_index[cnt].to_set()
                                == s0.size_index[cnt].to_set().remove(id));
                            assert(s0.size_index[cnt].to_set() =~= bucket_partial(
                                pre,
                                nom,
                                pset,
                                cnt,
                            ));
                            assert forall|id2: usize| s2.size_index[cnt].to_set().contains(id2)
                                == target.contains(id2) by {
                                assert(s2.size_index[cnt].to_set().contains(id2) == (
                                    bucket_partial(pre, nom, pset, cnt).contains(id2) && id2
                                    != id));
                                if id2 == id {
                                    assert(!target.contains(id2)) by {
                                        assert(count_after(pre, nom, id) == newc && c != newc);
                                        assert(pset2.contains(id));
                                    }
                                } else {
                                    assert(bucket_partial(pre, nom, pset, c).contains(id2)
                                        == target.contains(id2));
                                }
                            }
                            assert(after.size_index[c].to_set() =~= target);
                        } else {
                            assert(s2.size_index[c] == s0.size_index[c]);
                            assert(s0.size_index[c].to_set() =~= bucket_partial(pre, nom, pset, c));
                            assert forall|id2: usize| bucket_partial(pre, nom, pset, c).contains(
                                id2,
                            ) == target.contains(id2) by {
                                if id2 == id {
                                    assert(!bucket_partial(pre, nom, pset, c).contains(id2)) by {
                                        if pre.size_index.dom().contains(c)
                                            && pre.size_index[c].contains(id) {
                                            assert(pre.gems[id as int].facets.len() == c);
                                        }
                                    }
                                    assert(!target.contains(id2)) by {
                                        assert(count_after(pre, nom, id) == newc && c != newc);
                                        if pre.size_index.dom().contains(c)
                                            && pre.size_index[c].contains(id) {
                                            assert(pre.gems[id as int].facets.len() == c);
                                        }
                                    }
                                }
                            }
                            assert(after.size_index[c].to_set() =~= target);
                        }
                    }
                }
            }
            idx = idx + 1;
        }
        proof {
            assert(iv.take(iv.len() as int) == iv);
        }
        let ghost post_e1 = self@;
        proof {
            assert forall|g2: int| 0 <= g2 < n && !hit.contains(g2 as usize)
                implies #[trigger] post_e1.gems[g2] == pre.gems[g2] by {}
            assert forall|g2: int| 0 <= g2 < n && hit.contains(g2 as usize)
                implies #[trigger] post_e1.gems[g2] == stripped_gem(pre.gems[g2], nom) by {}
            assert forall|c: usize| #[trigger] post_e1.size_index.dom().contains(c) == (
                pre.size_index.dom().contains(c) || exists|id2: usize| hit.contains(id2)
                    && count_after(pre, nom, id2) == c) by {}
            assert forall|c: usize| post_e1.size_index.dom().contains(c) implies strictly_sorted(
                #[trigger] post_e1.size_index[c],
            ) && post_e1.size_index[c].to_set() == bucket_after(pre, nom, c) by {
                assert(post_e1.size_index[c].to_set() =~= bucket_after(pre, nom, c));
            }
        }
        // The nominated facets lose their impacted holders in the facet index.
        let ghost snap1 = *self;
        let mut t2: usize = 0;
        while t2 < nominated.len()
            invariant
                0 <= t2 <= nominated@.len(),
                nom == name_views(nominated@),
                nominated@.len() == nom.len(),
                b < pre.gems.len(),
                nom == pre.gems[b as int].facets,
                distinct_names(nom),
                view_invariant(pre),
                impacted@.to_set() == hit,
                self.inv(),
                self.gems == snap1.gems,
                self.known_facets == snap1.known_facets,
                self.frequency_baseline == snap1.frequency_baseline,
                self.size_index == snap1.size_index,
                self@.gems == post_e1.gems,
                self@.known == pre.known,
                self@.baseline == pre.baseline,
                self@.size_index == post_e1.size_index,
                self@.facet_index.dom() == pre.facet_index.dom(),
                forall|f: Seq<char>| self@.facet_index.dom().contains(f)
                    ==> #[trigger] self@.facet_index[f] == if nom.take(t2 as int).contains(f) {
                    ids_excluding(pre.facet_index[f], hit)
                } else {
                    pre.facet_index[f]
                },
            decreases nominated@.len() - t2,
        {
            proof {
                assert(nom[t2 as int] == nominated@[t2 as int]@);
                assert(pre.gems[b as int].facets.contains(nom[t2 as int]));
                assert(pre.facet_index.dom().contains(nom[t2 as int]));
            }
            let ghost fpre = self@;
            self.facet_entry_exclude(&nominated[t2], &impacted);
            proof {
                let f0 = nom[t2 as int];
                assert(!nom.take(t2 as int).contains(f0)) by {
                    if nom.take(t2 as int).contains(f0) {
                        let k = choose|k: int| 0 <= k < t2 && nom.take(t2 as int)[k] == f0;
                        assert(nom[k] == nom[t2 as int]);
                    }
                }
                assert(fpre.facet_index[f0] == pre.facet_index[f0]);
                assert(self@.facet_index[f0] == ids_excluding(pre.facet_index[f0], hit));
                assert forall|f: Seq<char>| self@.facet_index.dom().contains(f)
                    implies #[trigger] self@.facet_index[f] == if nom.take(t2 + 1).contains(f) {
                    ids_excluding(pre.facet_index[f], hit)
                } else {
                    pre.facet_index[f]
                } by {
                    let p1 = nom.take(t2 + 1);
                    let p0 = nom.take(t2 as int);
                    assert(p1.drop_last() == p0);
                    assert(p1.last() == f0);
                    assert(p1.contains(f) == (p0.contains(f) || f == f0)) by {
                        if p1.contains(f) {
                            let k = choose|k: int| 0 <= k < p1.len() && p1[k] == f;
                            if k < t2 {
                                assert(p0[k] == f);
                            }
                        } else {
                            if p0.contains(f) {
                                let k = choose|k: int| 0 <= k < p0.len() && p0[k] == f;
                                assert(p1[k] == f);
                            }
                            assert(p1[t2 as int] == f0);
                        }
                    }
                    if f != f0 {
                        assert(self@.facet_index[f] == fpre.facet_index[f]);
                    }
                }
            }
            t2 = t2 + 1;
        }
        proof {
            assert(nom.take(nom.len() as int) == nom);
        }
        let ghost post_e2 = self@;
        proof {
            assert(post_e2.facet_index.dom() == pre.facet_index.dom());
            assert forall|f: Seq<char>| #[trigger] post_e2.facet_index.dom().contains(f)
                implies post_e2.facet_index[f] == if nom.contains(f) {
                ids_excluding(pre.facet_index[f], hit)
            } else {
                pre.facet_index[f]
            } by {
                assert(post_e2.facet_index[f] == if nom.take(nom.len() as int).contains(f) {
                    ids_excluding(pre.facet_index[f], hit)
                } else {
                    pre.facet_index[f]
                });
            }
        }
        // The nominated names are now taught.
        let ghost snap2 = *self;
        let mut t3: usize = 0;
        while t3 < nominated.len()
            invariant
                0 <= t3 <= nominated@.len(),
                self.gems == snap2.gems,
                self.size_index == snap2.size_index,
                self.facet_index == snap2.facet_index,
                self.frequency_baseline == snap2.frequency_baseline,
                name_views(self.known_facets@) == pre.known + nom.take(t3 as int),
                nom == name_views(nominated@),
            decreases nominated@.len() - t3,
        {
            let ghost kb = self.known_facets@;
            self.known_facets.push(nominated[t3].clone());
            proof {
                assert(nom[t3 as int] == nominated@[t3 as int]@);
                assert(name_views(self.known_facets@) =~= name_views(kb).push(nom[t3 as int]));
                assert(pre.known + nom.take(t3 + 1) =~= (pre.known + nom.take(t3 as int)).push(
                    nom[t3 as int],
                )) by {
                    assert(nom.take(t3 + 1) =~= nom.take(t3 as int).push(nom[t3 as int]));
                }
            }
            t3 = t3 + 1;
        }
        proof {
            assert(nom.take(nom.len() as int) == nom);
            assert(self@.known == pre.known + nom);
            assert(self@.gems == post_e2.gems && post_e2.gems == post_e1.gems);
            assert(self@.size_index == post_e2.size_index
                && post_e2.size_index == post_e1.size_index);
            assert(self@.facet_index == post_e2.facet_index);
            assert(self@.baseline == pre.baseline);
            lemma_round_bridge(pre, nom, b, hit, post_e1, self@);
            assert(self@ == spec_apply(pre, nom));
            assert(self.inv()) by {
                assert(self.size_index == snap2.size_index);
                assert(self.facet_index == snap2.facet_index);
                assert(self.frequency_baseline == snap2.frequency_baseline);
                assert(snap2.inv());
            }
        }
    }
}

/// The number of rounds the ordering driver runs by default.
pub const DEFAULT_ROUNDS: usize = 200;

/// The name views of a sequence of facet batches.
pub open spec fn batch_views(s: Seq<Vec<String>>) -> Seq<Seq<Seq<char>>> {
    s.map_values(|v: Vec<String>| name_views(v@))
}

/// Running up to `rounds` rounds from `cv`: the nominated facet sets in
/// order, the terminal condition if one cut the run short, and the final
/// state.
pub open spec fn spec_run(cv: CollectionView, rounds: nat) -> (Seq<Seq<Seq<char>>>, Option<
    EngineError,
>, CollectionView)
    decreases rounds,
{
    if rounds == 0 {
        (Seq::empty(), None, cv)
    } else {
        match spec_round(cv) {
            RoundOutcome::Nominated { facets, next } => {
                let rest = spec_run(next, (rounds - 1) as nat);
                (seq![facets] + rest.0, rest.1, rest.2)
            },
            RoundOutcome::Exhausted => (
                Seq::empty(),
                Some(EngineError::EmptyCandidateGroup),
                cv,
            ),
            RoundOutcome::NoViableSelection => (
                Seq::empty(),
                Some(EngineError::NoViableFacetSelection),
                cv,
            ),
        }
    }
}

/// Determinism: the sequence of nominated facet sets, the terminal
/// condition, and the final state are all functions of the starting state
/// alone, so two runs over equal collections agree round for round.
pub proof fn lemma_ordering_deterministic(a: CollectionView, b: CollectionView, rounds: nat)
    requires
        a == b,
    ensures
        spec_run(a, rounds) == spec_run(b, rounds),
{
}

impl GemCollection {
    /// Runs up to `rounds` ordering rounds, stopping early when a round ends
    /// with a terminal condition, and returns the nominated facet sets in
    /// study order together with the condition that ended the run, if any.
    pub fn run_ordering(&mut self, rounds: usize) -> (r: (Vec<Vec<String>>, Option<EngineError>))
        requires
            old(self).well_formed(),
        ensures
            final(self).well_formed(),
            batch_views(r.0@) == spec_run(old(self)@, rounds as nat).0,
            r.1 == spec_run(old(self)@, rounds as nat).1,
            final(self)@ == spec_run(old(self)@, rounds as nat).2,
            final(self)@.gems.len() == old(self)@.gems.len(),
            forall|i: int| 0 <= i < final(self)@.gems.len()
                ==> (#[trigger] final(self)@.gems[i]).sides == old(self)@.gems[i].sides
                && final(self)@.gems[i].facets.len() <= old(self)@.gems[i].facets.len(),
    {
        let ghost pre0 = self@;
        let mut nominations: Vec<Vec<String>> = Vec::new();
        let mut end: Option<EngineError> = None;
        let mut i: usize = 0;
        proof {
            assert(batch_views(nominations@) =~= Seq::<Seq<Seq<char>>>::empty());
        }
        while i < rounds && end.is_none()
            invariant
                0 <= i <= rounds,
                self.well_formed(),
                self@.gems.len() == pre0.gems.len(),
                forall|g: int| 0 <= g < self@.gems.len()
                    ==> (#[trigger] self@.gems[g]).sides == pre0.gems[g].sides
                    && self@.gems[g].facets.len() <= pre0.gems[g].facets.len(),
                match end {
                    None => spec_run(pre0, rounds as nat).0 == batch_views(nominations@)
                        + spec_run(self@, (rounds - i) as nat).0 && spec_run(
                        pre0,
                        rounds as nat,
                    ).1 == spec_run(self@, (rounds - i) as nat).1 && spec_run(
                        pre0,
                        rounds as nat,
                    ).2 == spec_run(self@, (rounds - i) as nat).2,
                    Some(e) => spec_run(pre0, rounds as nat) == (
                        batch_views(nominations@),
                        Some(e),
                        self@,
                    ),
                },
            decreases rounds - i,
        {
            let ghost cur = self@;
            let ghost remaining = (rounds - i) as nat;
            let outcome = self.run_round();
            match outcome {
                Ok(batch) => {
                    proof {
                        let sr = spec_round(cur);
                        assert(sr matches RoundOutcome::Nominated { facets, next }
                            && name_views(batch@) == facets && self@ == next);
                        let facets = sr->Nominated_facets;
                        let next = sr->Nominated_next;
                        assert(spec_run(cur, remaining).0 == seq![facets] + spec_run(
                            next,
                            (remaining - 1) as nat,
                        ).0);
                        assert(batch_views(nominations@.push(batch)) =~= batch_views(
                            nominations@,
                        ).push(name_views(batch@)));
                        assert(batch_views(nominations@) + spec_run(cur, remaining).0
                            =~= batch_views(nominations@.push(batch)) + spec_run(
                            next,
                            (remaining - 1) as nat,
                        ).0);
                    }
                    nominations.push(batch);
                },
                Err(e) => {
                    proof {
                        let sr = spec_round(cur);
                        assert(self@ == cur);
                        assert(spec_run(pre0, rounds as nat).0 =~= batch_views(nominations@)) by {
                            assert(spec_run(cur, remaining).0 =~= Seq::<Seq<Seq<char>>>::empty());
                            assert(batch_views(nominations@) + spec_run(cur, remaining).0
                                =~= batch_views(nominations@));
                        }
                        assert(spec_run(cur, remaining).1 == Some(e));
                        assert(spec_run(cur, remaining).2 == cur);
                    }
                    end = Some(e);
                },
            }
            i = i + 1;
        }
        proof {
            if end is None {
                assert(i == rounds);
                assert(spec_run(self@, 0).0 =~= Seq::<Seq<Seq<char>>>::empty());
                assert(batch_views(nominations@) + spec_run(self@, 0).0 =~= batch_views(
                    nominations@,
                ));
            }
        }
        (nominations, end)
    }
}

} // verus!
