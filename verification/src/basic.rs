//! Whole-collection passes over a flat list of gems: grouping by unknown-facet
//! count, tallying facet frequencies, ranking a group by how common its first
//! facet is, and stripping taught facets.  These work without the incremental
//! indices of the collection type and drive a simpler ordering loop.

use vstd::prelude::*;
use crate::collection::{set_min, DEFAULT_ROUNDS};
use crate::freq::{FreqTable, count_frequencies, frequency_map, gem_views};
use crate::gem::{Gem, GemView, gem_wf, name_views, strip_facets};
use crate::ids::{id_seq_of, lemma_id_seq_of, strictly_sorted};

verus! {

/// The ids of the gems with exactly `n` unknown facets, in ascending order.
pub open spec fn ids_with_count(gems: Seq<GemView>, n: usize) -> Seq<usize> {
    id_seq_of(Set::new(|id: usize| id < gems.len() && gems[id as int].facets.len() == n))
}

/// All gems are well formed and within machine bounds.
pub open spec fn gems_wf(gems: Seq<GemView>) -> bool {
    forall|i: int| 0 <= i < gems.len() ==> gem_wf(#[trigger] gems[i]) && gems[i].facets.len()
        < usize::MAX
}

/// Every gem with the taught names stripped from its unknown set.
pub open spec fn gem_views_strip(gv: Seq<GemView>, taught: Seq<Seq<char>>) -> Seq<GemView> {
    Seq::new(
        gv.len(),
        |i: int| GemView { sides: gv[i].sides, facets: strip_facets(gv[i].facets, taught) },
    )
}

/// The ids of every gem with exactly `n` unknown facets, in ascending order.
pub fn get_gems_with_n_unknown_facets(gems: &Vec<Gem>, n: usize) -> (r: Vec<usize>)
    ensures
        r@ == ids_with_count(gem_views(gems@), n),
        strictly_sorted(r@),
        forall|k: int| 0 <= k < r@.len() ==> #[trigger] r@[k] < gems@.len()
            && gem_views(gems@)[r@[k] as int].facets.len() == n,
{
    broadcast use vstd::seq_lib::group_seq_properties;

    let ghost gv = gem_views(gems@);
    let mut r: Vec<usize> = Vec::new();
    let mut i: usize = 0;
    proof {
        assert(r@.to_set() =~= Set::<usize>::empty());
    }
    while i < gems.len()
        invariant
            0 <= i <= gems@.len(),
            gv == gem_views(gems@),
            strictly_sorted(r@),
            forall|k: int| 0 <= k < r@.len() ==> #[trigger] r@[k] < i,
            r@.to_set() =~= Set::new(|id: usize| id < i && gv[id as int].facets.len() == n),
        decreases gems@.len() - i,
    {
        assert(gv[i as int] == gems@[i as int]@);
        if gems[i].unknown_count() == n {
            let ghost before = r@;
            r.push(i);
            proof {
                assert(r@ == before.push(i));
                assert(strictly_sorted(r@)) by {
                    assert(forall|k: int| 0 <= k < before.len() ==> r@[k] == before[k]);
                    assert(r@[r@.len() - 1] == i);
                }
                assert(r@.to_set() =~= before.to_set().insert(i));
            }
        }
        proof {
            assert(r@.to_set() =~= Set::new(
                |id: usize| id < i + 1 && gv[id as int].facets.len() == n,
            ));
        }
        i = i + 1;
    }
    proof {
        assert(r@.to_set() =~= Set::new(
            |id: usize| id < gv.len() && gv[id as int].facets.len() == n,
        ));
        lemma_id_seq_of(r@);
        assert forall|k: int| 0 <= k < r@.len() implies #[trigger] r@[k] < gems@.len()
            && gv[r@[k] as int].facets.len() == n by {
            assert(r@.to_set().contains(r@[k]));
        }
    }
    r
}

/// Tallies, over the gems with exactly `n` unknown facets, how many of them
/// list each facet name.
pub fn get_facet_counts(gems: &Vec<Gem>, n: usize) -> (t: FreqTable)
    requires
        gems_wf(gem_views(gems@)),
    ensures
        t.inv(),
        t@ == frequency_map(gem_views(gems@), ids_with_count(gem_views(gems@), n)),
{
    let ids = get_gems_with_n_unknown_facets(gems, n);
    count_frequencies(gems, &ids)
}

/// How a gem ranks: the tallied count of its first unknown facet, or `None`
/// when that facet was not tallied.
pub open spec fn sort_key(gems: Seq<GemView>, m: Map<Seq<char>, usize>, id: usize) -> Option<
    usize,
> {
    if m.dom().contains(gems[id as int].facets[0]) {
        Some(m[gems[id as int].facets[0]])
    } else {
        None
    }
}

/// Whether rank `a` sorts strictly after rank `b`: a missing rank sorts after
/// every present one, and present ranks sort by descending count.
pub open spec fn rank_below(a: Option<usize>, b: Option<usize>) -> bool {
    match (a, b) {
        (None, Some(_)) => true,
        (Some(x), Some(y)) => x < y,
        _ => false,
    }
}

/// Inserts `x` behind every already-placed id that ranks at least as high, so
/// equal ranks keep their earlier order.
pub open spec fn rank_insert(
    gems: Seq<GemView>,
    m: Map<Seq<char>, usize>,
    x: usize,
    r: Seq<usize>,
) -> Seq<usize>
    decreases r.len(),
{
    if r.len() == 0 {
        seq![x]
    } else if rank_below(sort_key(gems, m, r[0]), sort_key(gems, m, x)) {
        seq![x] + r
    } else {
        seq![r[0]] + rank_insert(gems, m, x, r.drop_first())
    }
}

/// The stable sort of `s` by descending rank: ids are inserted left to right.
pub open spec fn rank_sorted(gems: Seq<GemView>, m: Map<Seq<char>, usize>, s: Seq<usize>) -> Seq<
    usize,
>
    decreases s.len(),
{
    if s.len() == 0 {
        Seq::empty()
    } else {
        rank_insert(gems, m, s.last(), rank_sorted(gems, m, s.drop_last()))
    }
}

/// Inserting at the first position whose rank falls strictly below the new
/// id's rank is what `rank_insert` does.
proof fn lemma_rank_insert_at(
    gems: Seq<GemView>,
    m: Map<Seq<char>, usize>,
    x: usize,
    r: Seq<usize>,
    p: int,
)
    requires
        0 <= p <= r.len(),
        forall|j: int| 0 <= j < p ==> !rank_below(
            sort_key(gems, m, #[trigger] r[j]),
            sort_key(gems, m, x),
        ),
        p < r.len() ==> rank_below(sort_key(gems, m, r[p]), sort_key(gems, m, x)),
    ensures
        rank_insert(gems, m, x, r) == r.take(p) + seq![x] + r.skip(p),
    decreases r.len(),
{
    broadcast use vstd::seq_lib::group_seq_properties;

    if r.len() == 0 {
        assert(rank_insert(gems, m, x, r) =~= r.take(p) + seq![x] + r.skip(p));
    } else if p == 0 {
        assert(rank_below(sort_key(gems, m, r[0]), sort_key(gems, m, x)));
        assert(rank_insert(gems, m, x, r) =~= r.take(0) + seq![x] + r.skip(0));
    } else {
        assert(!rank_below(sort_key(gems, m, r[0]), sort_key(gems, m, x)));
        let d = r.drop_first();
        assert(forall|j: int| 0 <= j < p - 1 ==> #[trigger] d[j] == r[j + 1]);
        lemma_rank_insert_at(gems, m, x, d, p - 1);
        assert(rank_insert(gems, m, x, r) == seq![r[0]] + (d.take(p - 1) + seq![x] + d.skip(p
            - 1)));
        assert(seq![r[0]] + (d.take(p - 1) + seq![x] + d.skip(p - 1)) =~= r.take(p) + seq![x]
            + r.skip(p));
    }
}

/// The rank of gem `id` against the table, computed on the live data.
fn exec_rank(gems: &Vec<Gem>, table: &FreqTable, id: usize) -> (r: Option<usize>)
    requires
        table.inv(),
        id < gems@.len(),
        gem_views(gems@)[id as int].facets.len() > 0,
    ensures
        r == sort_key(gem_views(gems@), table@, id),
{
    assert(gem_views(gems@)[id as int] == gems@[id as int]@);
    let fs = gems[id].unknown_facets();
    table.get_opt(&fs[0])
}

/// The gems with exactly `n` unknown facets, ranked so that a gem whose first
/// facet is common among the gems with `n + 1` unknown facets comes first;
/// gems whose first facet was not tallied come last, and equal ranks keep
/// ascending id order.
pub fn get_gems_with_n_unknown_facets_sorted(gems: &Vec<Gem>, n: usize) -> (r: Vec<usize>)
    requires
        gems_wf(gem_views(gems@)),
        n >= 1,
        n < usize::MAX,
    ensures
        r@ == rank_sorted(
            gem_views(gems@),
            frequency_map(gem_views(gems@), ids_with_count(gem_views(gems@), (n + 1) as usize)),
            ids_with_count(gem_views(gems@), n),
        ),
        r@.len() == ids_with_count(gem_views(gems@), n).len(),
        forall|k: int| 0 <= k < r@.len() ==> #[trigger] r@[k] < gems@.len()
            && gem_views(gems@)[r@[k] as int].facets.len() == n,
{
    broadcast use vstd::seq_lib::group_seq_properties;

    let ghost gv = gem_views(gems@);
    let ids = get_gems_with_n_unknown_facets(gems, n);
    let facet_counts = get_facet_counts(gems, n + 1);
    let ghost m = facet_counts@;
    let mut r: Vec<usize> = Vec::new();
    let mut i: usize = 0;
    while i < ids.len()
        invariant
            0 <= i <= ids@.len(),
            gv == gem_views(gems@),
            m == facet_counts@,
            facet_counts.inv(),
            n >= 1,
            forall|k: int| 0 <= k < ids@.len() ==> #[trigger] ids@[k] < gems@.len()
                && gv[ids@[k] as int].facets.len() == n,
            r@ == rank_sorted(gv, m, ids@.take(i as int)),
            r@.len() == i,
            forall|k: int| 0 <= k < r@.len() ==> #[trigger] r@[k] < gems@.len()
                && gv[r@[k] as int].facets.len() == n,
        decreases ids@.len() - i,
    {
        let x = ids[i];
        let key_x = exec_rank(gems, &facet_counts, x);
        let mut p: usize = 0;
        let mut placed = false;
        while !placed && p < r.len()
            invariant
                0 <= p <= r@.len(),
                key_x == sort_key(gv, m, x),
                gv == gem_views(gems@),
                m == facet_counts@,
                facet_counts.inv(),
                n >= 1,
                forall|k: int| 0 <= k < r@.len() ==> #[trigger] r@[k] < gems@.len()
                    && gv[r@[k] as int].facets.len() == n,
                forall|j: int| 0 <= j < p ==> !rank_below(
                    sort_key(gv, m, #[trigger] r@[j]),
                    sort_key(gv, m, x),
                ),
                placed ==> p < r@.len() && rank_below(sort_key(gv, m, r@[p as int]), sort_key(
                    gv,
                    m,
                    x,
                )),
            decreases r@.len() - p + (if placed { 0int } else { 1int }),
        {
            let key_here = exec_rank(gems, &facet_counts, r[p]);
            if rank_below_exec(key_here, key_x) {
                placed = true;
            } else {
                p = p + 1;
            }
        }
        let ghost before = r@;
        r.insert(p, x);
        proof {
            lemma_rank_insert_at(gv, m, x, before, p as int);
            assert(r@ =~= before.take(p as int) + seq![x] + before.skip(p as int));
            assert(ids@.take(i + 1).drop_last() == ids@.take(i as int));
            assert(ids@.take(i + 1).last() == ids@[i as int]);
            assert(r@ == rank_sorted(gv, m, ids@.take(i + 1)));
            assert forall|k: int| 0 <= k < r@.len() implies #[trigger] r@[k] < gems@.len()
                && gv[r@[k] as int].facets.len() == n by {
                if k < p {
                    assert(r@[k] == before[k]);
                } else if k == p {
                    assert(r@[k] == x);
                    assert(ids@[i as int] == x);
                } else {
                    assert(r@[k] == before[k - 1]);
                }
            }
        }
        i = i + 1;
    }
    proof {
        assert(ids@.take(ids@.len() as int) == ids@);
    }
    r
}

/// Whether rank `a` sorts strictly after rank `b`.
fn rank_below_exec(a: Option<usize>, b: Option<usize>) -> (r: bool)
    ensures
        r == rank_below(a, b),
{
    match (a, b) {
        (None, Some(_)) => true,
        (Some(x), Some(y)) => x < y,
        _ => false,
    }
}

/// The least unknown-facet count, at least 1, that some gem still holds.
pub open spec fn least_busy_count(gems: Seq<GemView>) -> usize {
    set_min(
        Set::new(
            |c: usize| c >= 1 && exists|i: int|
                0 <= i < gems.len() && (#[trigger] gems[i]).facets.len() == c,
        ),
    )
}

/// Starts at one unknown facet and moves up until a nonempty group appears,
/// then ranks that group as `get_gems_with_n_unknown_facets_sorted` does.
pub fn get_gems_with_n_unknown_facets_sorted_wrapper(gems: &Vec<Gem>) -> (r: Vec<usize>)
    requires
        gems_wf(gem_views(gems@)),
        exists|i: int| 0 <= i < gems@.len() && (#[trigger] gem_views(gems@)[i]).facets.len() >= 1,
    ensures
        ({
            let gv = gem_views(gems@);
            let n0 = least_busy_count(gv);
            r@ == rank_sorted(
                gv,
                frequency_map(gv, ids_with_count(gv, (n0 + 1) as usize)),
                ids_with_count(gv, n0),
            ) && r@.len() > 0 && n0 >= 1
        }),
        forall|k: int| 0 <= k < r@.len() ==> #[trigger] r@[k] < gems@.len(),
{
    broadcast use vstd::seq_lib::group_seq_properties;

    let ghost gv = gem_views(gems@);
    let total = gems.len();
    let ghost busy = Set::new(
        |c: usize| c >= 1 && exists|i: int|
            0 <= i < gv.len() && (#[trigger] gv[i]).facets.len() == c,
    );
    proof {
        let w = choose|i: int| 0 <= i < gv.len() && (#[trigger] gv[i]).facets.len() >= 1;
        let cw = gv[w].facets.len() as usize;
        assert(busy.contains(cw));
        assert(busy.contains(least_busy_count(gv)) && forall|x: usize| busy.contains(x)
            ==> least_busy_count(gv) <= x) by {
            assert(exists|m2: usize| busy.contains(m2) && forall|x: usize| busy.contains(x)
                ==> m2 <= x) by {
                lemma_busy_has_min(gv, busy, cw);
            }
            let m2 = set_min(busy);
            assert(busy.contains(m2) && forall|x: usize| busy.contains(x) ==> m2 <= x);
        }
    }
    let ghost n0 = least_busy_count(gv);
    proof {
        assert(n0 < usize::MAX) by {
            let w2 = choose|i: int| 0 <= i < gv.len() && (#[trigger] gv[i]).facets.len() == n0;
        }
    }
    let mut n: usize = 1;
    let mut sorted = get_gems_with_n_unknown_facets_sorted(gems, n);
    while sorted.len() == 0
        invariant
            1 <= n,
            n <= n0,
            n0 < usize::MAX,
            total == gems@.len(),
            gv == gem_views(gems@),
            gems_wf(gv),
            busy == Set::new(
                |c: usize| c >= 1 && exists|i: int|
                    0 <= i < gv.len() && (#[trigger] gv[i]).facets.len() == c,
            ),
            n0 == least_busy_count(gv),
            busy.contains(n0),
            forall|x: usize| busy.contains(x) ==> n0 <= x,
            sorted@ == rank_sorted(
                gv,
                frequency_map(gv, ids_with_count(gv, (n + 1) as usize)),
                ids_with_count(gv, n),
            ),
            sorted@.len() == ids_with_count(gv, n).len(),
            forall|k: int| 0 <= k < sorted@.len() ==> #[trigger] sorted@[k] < gems@.len(),
        decreases n0 - n,
    {
        proof {
            lemma_count_set_has_sorted_rep(gv, n, total);
            assert(!busy.contains(n)) by {
                if busy.contains(n) {
                    let w = choose|i: int| 0 <= i < gv.len() && (#[trigger] gv[i]).facets.len()
                        == n;
                    let st = Set::new(
                        |id: usize| id < gv.len() && gv[id as int].facets.len() == n,
                    );
                    assert(st.contains(w as usize));
                    assert(ids_with_count(gv, n).to_set().contains(w as usize));
                    assert(ids_with_count(gv, n).contains(w as usize));
                    assert(false);
                }
            }
            assert(n != n0);
            assert(n < n0);
        }
        n = n + 1;
        sorted = get_gems_with_n_unknown_facets_sorted(gems, n);
    }
    proof {
        lemma_count_set_has_sorted_rep(gv, n, total);
        assert(busy.contains(n)) by {
            let st = Set::new(|id: usize| id < gv.len() && gv[id as int].facets.len() == n);
            assert(ids_with_count(gv, n).to_set().contains(ids_with_count(gv, n)[0]));
            assert(st.contains(ids_with_count(gv, n)[0]));
        }
        assert(n == n0);
    }
    sorted
}

/// A finite nonempty set of counts has a least element.
proof fn lemma_busy_has_min(gv: Seq<GemView>, busy: Set<usize>, w: usize)
    requires
        busy.contains(w),
        forall|x: usize| busy.contains(x) ==> x >= 1,
    ensures
        exists|m2: usize| busy.contains(m2) && forall|x: usize| busy.contains(x) ==> m2 <= x,
    decreases w,
{
    if forall|x: usize| busy.contains(x) ==> w <= x {
        assert(busy.contains(w) && forall|x: usize| busy.contains(x) ==> w <= x);
    } else {
        let y = choose|y: usize| busy.contains(y) && y < w;
        lemma_busy_has_min(gv, busy, y);
    }
}

/// The id list for a count is the canonical sorted form of its id set.
proof fn lemma_count_set_has_sorted_rep(gv: Seq<GemView>, n: usize, total: usize)
    requires
        gv.len() == total,
    ensures
        strictly_sorted(ids_with_count(gv, n)),
        ids_with_count(gv, n).to_set() == Set::new(
            |id: usize| id < gv.len() && gv[id as int].facets.len() == n,
        ),
{
    broadcast use vstd::seq_lib::group_seq_properties;

    let s = Set::new(|id: usize| id < gv.len() && gv[id as int].facets.len() == n);
    let q = witness_sorted_ids(gv, n, gv.len() as int);
    lemma_witness_sorted_ids(gv, n, gv.len() as int);
    assert(q.to_set() =~= s);
    lemma_id_seq_of(q);
}

/// An explicit strictly increasing list of the ids below `upto` whose gems
/// hold exactly `n` unknown facets.
spec fn witness_sorted_ids(gv: Seq<GemView>, n: usize, upto: int) -> Seq<usize>
    decreases upto,
{
    if upto <= 0 {
        Seq::empty()
    } else {
        let rest = witness_sorted_ids(gv, n, upto - 1);
        if gv[upto - 1].facets.len() == n {
            rest.push((upto - 1) as usize)
        } else {
            rest
        }
    }
}

proof fn lemma_witness_sorted_ids(gv: Seq<GemView>, n: usize, upto: int)
    requires
        0 <= upto <= gv.len(),
        upto <= usize::MAX,
    ensures
        strictly_sorted(witness_sorted_ids(gv, n, upto)),
        forall|x: usize| witness_sorted_ids(gv, n, upto).to_set().contains(x) == (x < upto
            && gv[x as int].facets.len() == n),
    decreases upto,
{
    broadcast use vstd::seq_lib::group_seq_properties;

    let q = witness_sorted_ids(gv, n, upto);
    if upto <= 0 {
        assert(forall|x: usize| !q.contains(x));
    } else {
        lemma_witness_sorted_ids(gv, n, upto - 1);
        let rest = witness_sorted_ids(gv, n, upto - 1);
        assert forall|x: usize| rest.contains(x) implies x < upto - 1 by {
            assert(rest.to_set().contains(x));
        }
        if gv[upto - 1].facets.len() == n {
            assert(q == rest.push((upto - 1) as usize));
            assert(strictly_sorted(q)) by {
                assert(forall|k: int| 0 <= k < rest.len() ==> q[k] == rest[k]);
                assert(q[q.len() - 1] == (upto - 1) as usize);
                assert forall|a: int, c: int| 0 <= a < c < q.len() implies q[a] < q[c] by {
                    if c == q.len() - 1 {
                        assert(rest.contains(q[a]));
                    }
                }
            }
            assert forall|x: usize| q.to_set().contains(x) == (x < upto
                && gv[x as int].facets.len() == n) by {
                assert(q.to_set() =~= rest.to_set().insert((upto - 1) as usize));
            }
        } else {
            assert forall|x: usize| q.to_set().contains(x) == (x < upto
                && gv[x as int].facets.len() == n) by {
                if x == (upto - 1) as usize {
                    assert(gv[x as int].facets.len() != n);
                }
            }
        }
    }
}

/// Each gem with every facet of `known_facets` removed from its unknown set;
/// sides and order are kept.
pub fn strip_known_facets(known_facets: Vec<String>, gems: Vec<Gem>) -> (r: Vec<Gem>)
    ensures
        r@.len() == gems@.len(),
        forall|i: int| 0 <= i < gems@.len() ==> (#[trigger] gem_views(r@)[i]).sides
            == gem_views(gems@)[i].sides && gem_views(r@)[i].facets == strip_facets(
            gem_views(gems@)[i].facets,
            name_views(known_facets@),
        ),
{
    broadcast use vstd::seq_lib::group_seq_properties;

    let ghost orig = gems@;
    let ghost tv = name_views(known_facets@);
    let mut rest = gems;
    let mut out: Vec<Gem> = Vec::new();
    while rest.len() > 0
        invariant
            out@.len() + rest@.len() == orig.len(),
            rest@ == orig.skip(out@.len() as int),
            tv == name_views(known_facets@),
            forall|i: int| 0 <= i < out@.len() ==> (#[trigger] gem_views(out@)[i]).sides
                == gem_views(orig)[i].sides && gem_views(out@)[i].facets == strip_facets(
                gem_views(orig)[i].facets,
                tv,
            ),
        decreases rest@.len(),
    {
        let ghost done = out@.len() as int;
        let mut g = rest.remove(0);
        proof {
            assert(orig.skip(done)[0] == orig[done]);
            assert(g == orig[done]);
            assert(rest@ =~= orig.skip(done + 1));
        }
        g.strip(&known_facets);
        let ghost gview = g@;
        let ghost out_before = out@;
        out.push(g);
        proof {
            assert(gem_views(out@)[done] == out@[done]@);
            assert(gem_views(orig)[done] == orig[done]@);
            assert forall|i: int| 0 <= i < out@.len() implies (#[trigger] gem_views(out@)[i]).sides
                == gem_views(orig)[i].sides && gem_views(out@)[i].facets == strip_facets(
                gem_views(orig)[i].facets,
                tv,
            ) by {
                if i < done {
                    assert(out@[i] == out_before[i]);
                    assert(gem_views(out_before)[i] == out_before[i]@);
                    assert(gem_views(out@)[i] == out@[i]@);
                } else {
                    assert(gem_views(out@)[i] == gview);
                    assert(gview.sides == gem_views(orig)[done].sides);
                    assert(gview.facets == strip_facets(gem_views(orig)[done].facets, tv));
                }
            }
        }
    }
    out
}

/// One pass of the simple ordering loop over a flat gem list: the ranked
/// wrapper nominates the facet set of its top gem, those facets join the
/// taught set, and every gem is stripped against the full taught set.
pub open spec fn spec_order_step(gv: Seq<GemView>, known: Seq<Seq<char>>) -> (
    Seq<Seq<char>>,
    Seq<Seq<char>>,
    Seq<GemView>,
) {
    let n0 = least_busy_count(gv);
    let ranked = rank_sorted(
        gv,
        frequency_map(gv, ids_with_count(gv, (n0 + 1) as usize)),
        ids_with_count(gv, n0),
    );
    let top = ranked[0];
    let batch = gv[top as int].facets;
    let known2 = known + batch;
    (batch, known2, gem_views_strip(gv, known2))
}

/// The nominated batches of the simple ordering loop, which stops after the
/// round budget or as soon as no gem has unknown facets left.
pub open spec fn spec_order_rounds(gv: Seq<GemView>, known: Seq<Seq<char>>, rounds: nat) -> Seq<
    Seq<Seq<char>>,
>
    decreases rounds,
{
    if rounds == 0 {
        Seq::empty()
    } else if !(exists|i: int| 0 <= i < gv.len() && (#[trigger] gv[i]).facets.len() >= 1) {
        Seq::empty()
    } else {
        let (batch, known2, gv2) = spec_order_step(gv, known);
        seq![batch] + spec_order_rounds(gv2, known2, (rounds - 1) as nat)
    }
}

/// Orders a flat gem list by difficulty: each round nominates the facet set
/// of the top-ranked gem among those with the fewest unknown facets, teaches
/// it, and strips it from every gem.  Returns the nominated batches in study
/// order.
pub fn order_gems_by_difficulty(all_gems: Vec<Gem>) -> (r: Vec<Vec<String>>)
    requires
        gems_wf(gem_views(all_gems@)),
    ensures
        crate::collection::batch_views(r@) == spec_order_rounds(
            gem_views(all_gems@),
            Seq::empty(),
            DEFAULT_ROUNDS as nat,
        ),
{
    broadcast use vstd::seq_lib::group_seq_properties;

    let mut gems = all_gems;
    let mut known_facets: Vec<String> = Vec::new();
    let mut batches: Vec<Vec<String>> = Vec::new();
    let ghost gv0 = gem_views(gems@);
    let mut round: usize = 0;
    proof {
        assert(crate::collection::batch_views(batches@) =~= Seq::<Seq<Seq<char>>>::empty());
        assert(name_views(known_facets@) =~= Seq::<Seq<char>>::empty());
    }
    while round < DEFAULT_ROUNDS
        invariant
            0 <= round <= DEFAULT_ROUNDS,
            gems_wf(gem_views(gems@)),
            spec_order_rounds(gv0, Seq::empty(), DEFAULT_ROUNDS as nat)
                == crate::collection::batch_views(batches@) + spec_order_rounds(
                gem_views(gems@),
                name_views(known_facets@),
                (DEFAULT_ROUNDS - round) as nat,
            ),
        decreases DEFAULT_ROUNDS - round,
    {
        let ghost gv = gem_views(gems@);
        let ghost known = name_views(known_facets@);
        let ghost remaining = (DEFAULT_ROUNDS - round) as nat;
        // Stop once every gem is fully known.
        let mut any_busy = false;
        let mut j: usize = 0;
        while j < gems.len()
            invariant
                0 <= j <= gems@.len(),
                gv == gem_views(gems@),
                any_busy == exists|i: int| 0 <= i < j && (#[trigger] gv[i]).facets.len() >= 1,
            decreases gems@.len() - j,
        {
            assert(gv[j as int] == gems@[j as int]@);
            if gems[j].unknown_count() >= 1 {
                any_busy = true;
            }
            j = j + 1;
        }
        if !any_busy {
            proof {
                assert(spec_order_rounds(gv, known, remaining) =~= Seq::<Seq<Seq<char>>>::empty());
                assert(crate::collection::batch_views(batches@) + spec_order_rounds(
                    gv,
                    known,
                    remaining,
                ) =~= crate::collection::batch_views(batches@));
                assert(spec_order_rounds(gv0, Seq::empty(), DEFAULT_ROUNDS as nat)
                    == crate::collection::batch_views(batches@));
            }
            return batches;
        }
        let ranked = get_gems_with_n_unknown_facets_sorted_wrapper(&gems);
        let top = ranked[0];
        let batch = crate::gem::clone_names(gems[top].unknown_facets());
        proof {
            assert(name_views(batch@) == gv[top as int].facets) by {
                assert(gem_views(gems@)[top as int] == gems@[top as int]@);
            }
        }
        let mut bi: usize = 0;
        while bi < batch.len()
            invariant
                0 <= bi <= batch@.len(),
                gv == gem_views(gems@),
                gems_wf(gv),
                name_views(known_facets@) == known + name_views(batch@).take(bi as int),
            decreases batch@.len() - bi,
        {
            let ghost kb = known_facets@;
            known_facets.push(batch[bi].clone());
            proof {
                assert(name_views(known_facets@) =~= name_views(kb).push(batch@[bi as int]@));
                assert(known + name_views(batch@).take(bi + 1) =~= (known + name_views(
                    batch@,
                ).take(bi as int)).push(batch@[bi as int]@)) by {
                    assert(name_views(batch@).take(bi + 1) =~= name_views(batch@).take(
                        bi as int,
                    ).push(batch@[bi as int]@));
                }
            }
            bi = bi + 1;
        }
        proof {
            assert(name_views(batch@).take(name_views(batch@).len() as int) == name_views(
                batch@,
            ));
            assert(name_views(known_facets@) == known + name_views(batch@));
        }
        let stripped = strip_known_facets(crate::gem::clone_names(&known_facets), gems);
        gems = stripped;
        batches.push(batch);
        proof {
            let known2 = known + name_views(batches@.last()@);
            let (sbatch, sknown2, sgv2) = spec_order_step(gv, known);
            assert(sbatch == gv[top as int].facets) by {
                assert(ranked@[0] == rank_sorted(
                    gv,
                    frequency_map(gv, ids_with_count(gv, (least_busy_count(gv) + 1) as usize)),
                    ids_with_count(gv, least_busy_count(gv)),
                )[0]);
            }
            assert(sknown2 == name_views(known_facets@));
            assert(gem_views(gems@) =~= sgv2) by {
                assert forall|i: int| 0 <= i < gem_views(gems@).len()
                    implies gem_views(gems@)[i] == sgv2[i] by {
                    assert(gem_views(gems@)[i].sides == gv[i].sides);
                    assert(gem_views(gems@)[i].facets == strip_facets(gv[i].facets, sknown2));
                }
            }
            assert(gems_wf(gem_views(gems@))) by {
                assert forall|i: int| 0 <= i < gem_views(gems@).len() implies gem_wf(
                    #[trigger] gem_views(gems@)[i],
                ) && gem_views(gems@)[i].facets.len() < usize::MAX by {
                    crate::gem::lemma_strip_facets(gv[i].facets, sknown2);
                }
            }
            assert(spec_order_rounds(gv, known, remaining) == seq![sbatch] + spec_order_rounds(
                sgv2,
                sknown2,
                (remaining - 1) as nat,
            ));
            assert(crate::collection::batch_views(batches@) =~= crate::collection::batch_views(
                batches@.drop_last(),
            ).push(name_views(batch@)));
            assert(crate::collection::batch_views(batches@.drop_last()) + (seq![sbatch]
                + spec_order_rounds(sgv2, sknown2, (remaining - 1) as nat))
                =~= crate::collection::batch_views(batches@) + spec_order_rounds(
                sgv2,
                sknown2,
                (remaining - 1) as nat,
            ));
        }
        round = round + 1;
    }
    proof {
        assert(spec_order_rounds(gem_views(gems@), name_views(known_facets@), 0)
            =~= Seq::<Seq<Seq<char>>>::empty());
        assert(crate::collection::batch_views(batches@) + spec_order_rounds(
            gem_views(gems@),
            name_views(known_facets@),
            0,
        ) =~= crate::collection::batch_views(batches@));
    }
    batches
}

} // verus!
