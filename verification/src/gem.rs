//! The gem record: a flashcard with display sides and a set of facet names
//! that the learner does not know yet.

use vstd::prelude::*;

verus! {

/// The character sequences of a sequence of strings.
pub open spec fn name_views(s: Seq<String>) -> Seq<Seq<char>> {
    s.map_values(|x: String| x@)
}

/// No two entries spell the same name.
pub open spec fn distinct_names(s: Seq<Seq<char>>) -> bool {
    forall|i: int, j: int| 0 <= i < j < s.len() ==> s[i] != s[j]
}

/// `s` with every later repetition of a name dropped (first occurrence kept).
pub open spec fn dedup_names(s: Seq<Seq<char>>) -> Seq<Seq<char>>
    decreases s.len(),
{
    if s.len() == 0 {
        Seq::empty()
    } else {
        let d = dedup_names(s.drop_last());
        if d.contains(s.last()) {
            d
        } else {
            d.push(s.last())
        }
    }
}

pub proof fn lemma_dedup_names(s: Seq<Seq<char>>)
    ensures
        distinct_names(dedup_names(s)),
        forall|x: Seq<char>| dedup_names(s).contains(x) == s.contains(x),
    decreases s.len(),
{
    broadcast use vstd::seq_lib::group_seq_properties;

    if s.len() == 0 {
        assert(forall|x: Seq<char>| !s.contains(x));
    } else {
        lemma_dedup_names(s.drop_last());
        let d = dedup_names(s.drop_last());
        assert forall|x: Seq<char>| dedup_names(s).contains(x) implies s.contains(x) by {
            if d.contains(x) {
                assert(s.drop_last().contains(x));
                let i = choose|i: int| 0 <= i < s.drop_last().len() && s.drop_last()[i] == x;
                assert(s[i] == x);
            } else {
                assert(x == s.last());
            }
        }
        assert forall|x: Seq<char>| s.contains(x) implies dedup_names(s).contains(x) by {
            let i = choose|i: int| 0 <= i < s.len() && s[i] == x;
            if i < s.len() - 1 {
                assert(s.drop_last()[i] == x);
                assert(s.drop_last().contains(x));
                assert(d.contains(x));
                if !d.contains(s.last()) {
                    assert(d.push(s.last()).contains(x)) by {
                        let j = choose|j: int| 0 <= j < d.len() && d[j] == x;
                        assert(d.push(s.last())[j] == x);
                    }
                }
            } else {
                assert(x == s.last());
                if d.contains(s.last()) {
                } else {
                    assert(d.push(s.last()).last() == x);
                }
            }
        }
        if !d.contains(s.last()) {
            assert forall|i: int, j: int| 0 <= i < j < d.push(s.last()).len()
                implies d.push(s.last())[i] != d.push(s.last())[j] by {
                if j < d.len() {
                } else {
                    assert(d.push(s.last())[j] == s.last());
                    assert(d.push(s.last())[i] == d[i]);
                    assert(d.contains(d[i]));
                }
            }
        }
    }
}

/// The mathematical content of a gem: its sides and its unknown facet names,
/// in their stored order.
pub ghost struct GemView {
    pub sides: Seq<(usize, Seq<char>)>,
    pub facets: Seq<Seq<char>>,
}

/// A flashcard.  `sides` maps a side position to display text and is never
/// touched by the engine; `unknown_facets` holds the facet names the learner
/// has not yet mastered, each name at most once.
#[derive(Debug)]
pub struct Gem {
    sides: Vec<(usize, String)>,
    unknown_facets: Vec<String>,
}

impl View for Gem {
    type V = GemView;

    closed spec fn view(&self) -> GemView {
        GemView {
            sides: self.sides@.map_values(|p: (usize, String)| (p.0, p.1@)),
            facets: name_views(self.unknown_facets@),
        }
    }
}

/// A gem is well formed when no facet name repeats in its unknown set.
pub open spec fn gem_wf(g: GemView) -> bool {
    distinct_names(g.facets)
}

/// Whether a vector of names holds `x`.
pub fn names_contain(v: &Vec<String>, x: &String) -> (r: bool)
    ensures
        r == name_views(v@).contains(x@),
{
    broadcast use vstd::seq_lib::group_seq_properties;

    let mut i: usize = 0;
    while i < v.len()
        invariant
            0 <= i <= v.len(),
            forall|k: int| 0 <= k < i ==> name_views(v@)[k] != x@,
        decreases v.len() - i,
    {
        if v[i] == *x {
            assert(name_views(v@)[i as int] == x@);
            return true;
        }
        i = i + 1;
    }
    assert(forall|k: int| 0 <= k < name_views(v@).len() ==> name_views(v@)[k] != x@);
    false
}

/// A copy of a vector of names.
pub fn clone_names(v: &Vec<String>) -> (r: Vec<String>)
    ensures
        r@ == v@,
{
    let mut r: Vec<String> = Vec::new();
    let mut i: usize = 0;
    while i < v.len()
        invariant
            0 <= i <= v.len(),
            r@ == v@.take(i as int),
        decreases v.len() - i,
    {
        r.push(v[i].clone());
        assert(r@ == v@.take(i + 1));
        i = i + 1;
    }
    assert(v@.take(v@.len() as int) == v@);
    r
}

impl Gem {
    /// Builds a gem from its sides and a list of facet names; a name given
    /// twice is kept once, at its first position.
    pub fn new(sides: Vec<(usize, String)>, facets: Vec<String>) -> (g: Gem)
        ensures
            g@.sides == sides@.map_values(|p: (usize, String)| (p.0, p.1@)),
            g@.facets == dedup_names(name_views(facets@)),
            gem_wf(g@),
    {
        let mut unknown: Vec<String> = Vec::new();
        let mut i: usize = 0;
        while i < facets.len()
            invariant
                0 <= i <= facets.len(),
                name_views(unknown@) == dedup_names(name_views(facets@).take(i as int)),
            decreases facets.len() - i,
        {
            let ghost pre = name_views(unknown@);
            let present = names_contain(&unknown, &facets[i]);
            if !present {
                unknown.push(facets[i].clone());
                assert(name_views(unknown@) == pre.push(facets@[i as int]@)) by {
                    assert(name_views(unknown@) =~= pre.push(facets@[i as int]@));
                }
            }
            assert(name_views(facets@).take(i + 1).drop_last() == name_views(facets@).take(i as int));
            assert(name_views(facets@).take(i + 1).last() == facets@[i as int]@);
            i = i + 1;
        }
        assert(name_views(facets@).take(facets@.len() as int) == name_views(facets@));
        proof {
            lemma_dedup_names(name_views(facets@));
        }
        Gem { sides, unknown_facets: unknown }
    }

    /// The display sides.
    pub fn sides(&self) -> (r: &Vec<(usize, String)>)
        ensures
            r@.map_values(|p: (usize, String)| (p.0, p.1@)) == self@.sides,
    {
        &self.sides
    }

    /// The facet names the learner does not know yet.
    pub fn unknown_facets(&self) -> (r: &Vec<String>)
        ensures
            name_views(r@) == self@.facets,
    {
        &self.unknown_facets
    }

    /// How many facets are still unknown.
    pub fn unknown_count(&self) -> (r: usize)
        ensures
            r == self@.facets.len(),
    {
        self.unknown_facets.len()
    }

    /// Whether `f` is still unknown for this gem.
    pub fn has_facet(&self, f: &String) -> (r: bool)
        ensures
            r == self@.facets.contains(f@),
    {
        names_contain(&self.unknown_facets, f)
    }

    /// Removes every facet in `taught` from the unknown set, keeping the
    /// remaining names in their order.  The sides are untouched.
    pub fn strip(&mut self, taught: &Vec<String>)
        ensures
            final(self)@.sides == old(self)@.sides,
            final(self)@.facets == strip_facets(old(self)@.facets, name_views(taught@)),
    {
        broadcast use vstd::seq_lib::group_seq_properties;

        let ghost orig = name_views(self.unknown_facets@);
        let ghost tv = name_views(taught@);
        let mut kept: Vec<String> = Vec::new();
        let mut i: usize = 0;
        while i < self.unknown_facets.len()
            invariant
                0 <= i <= self.unknown_facets.len(),
                name_views(self.unknown_facets@) == orig,
                tv == name_views(taught@),
                name_views(kept@) == strip_facets(orig.take(i as int), tv),
            decreases self.unknown_facets.len() - i,
        {
            let ghost pre = name_views(kept@);
            let absent = !names_contain(taught, &self.unknown_facets[i]);
            if absent {
                kept.push(self.unknown_facets[i].clone());
                assert(name_views(kept@) =~= pre.push(orig[i as int]));
            }
            assert(strip_facets(orig.take(i + 1), tv) == name_views(kept@)) by {
                assert(orig.take(i + 1).drop_last() == orig.take(i as int));
                assert(orig.take(i + 1).last() == orig[i as int]);
            }
            i = i + 1;
        }
        assert(orig.take(orig.len() as int) == orig);
        self.unknown_facets = kept;
    }
}

/// `facets` with every name of `taught` removed, the rest kept in order.
pub open spec fn strip_facets(facets: Seq<Seq<char>>, taught: Seq<Seq<char>>) -> Seq<Seq<char>>
    decreases facets.len(),
{
    if facets.len() == 0 {
        Seq::empty()
    } else {
        let rest = strip_facets(facets.drop_last(), taught);
        if taught.contains(facets.last()) {
            rest
        } else {
            rest.push(facets.last())
        }
    }
}

/// What stripping keeps: exactly the names not taught, no longer than before,
/// and still pairwise distinct when they were.
pub proof fn lemma_strip_facets(facets: Seq<Seq<char>>, taught: Seq<Seq<char>>)
    ensures
        forall|x: Seq<char>| strip_facets(facets, taught).contains(x) == (facets.contains(x)
            && !taught.contains(x)),
        strip_facets(facets, taught).len() <= facets.len(),
        distinct_names(facets) ==> distinct_names(strip_facets(facets, taught)),
    decreases facets.len(),
{
    broadcast use vstd::seq_lib::group_seq_properties;

    if facets.len() == 0 {
        assert(forall|x: Seq<char>| !facets.contains(x));
        assert(forall|x: Seq<char>| !strip_facets(facets, taught).contains(x));
    } else {
        let d = facets.drop_last();
        lemma_strip_facets(d, taught);
        let rest = strip_facets(d, taught);
        assert forall|x: Seq<char>| facets.contains(x) == (d.contains(x) || x == facets.last())
            by {
            if facets.contains(x) {
                let i = choose|i: int| 0 <= i < facets.len() && facets[i] == x;
                if i < facets.len() - 1 {
                    assert(d[i] == x);
                }
            } else {
                if d.contains(x) {
                    let i = choose|i: int| 0 <= i < d.len() && d[i] == x;
                    assert(facets[i] == x);
                }
                assert(facets[facets.len() - 1] == facets.last());
            }
        }
        if !taught.contains(facets.last()) {
            let r = rest.push(facets.last());
            assert forall|x: Seq<char>| r.contains(x) == (facets.contains(x)
                && !taught.contains(x)) by {
                if r.contains(x) {
                    let i = choose|i: int| 0 <= i < r.len() && r[i] == x;
                    if i < r.len() - 1 {
                        assert(rest.contains(x));
                    }
                } else {
                    if rest.contains(x) {
                        let i = choose|i: int| 0 <= i < rest.len() && rest[i] == x;
                        assert(r[i] == x);
                    }
                    assert(r.last() == facets.last());
                }
            }
            if distinct_names(facets) {
                assert(distinct_names(d));
                assert(!d.contains(facets.last())) by {
                    if d.contains(facets.last()) {
                        let i = choose|i: int| 0 <= i < d.len() && d[i] == facets.last();
                        assert(facets[i] == facets[facets.len() - 1]);
                    }
                }
                assert forall|a: int, b: int| 0 <= a < b < r.len() implies r[a] != r[b] by {
                    if b == r.len() - 1 {
                        assert(rest.contains(r[a]));
                        assert(d.contains(r[a]));
                    }
                }
            }
        } else {
            if distinct_names(facets) {
                assert(distinct_names(d));
            }
        }
    }
}

} // verus!
