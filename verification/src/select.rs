//! The facet selector: from a group of candidate gems it picks the gem whose
//! unknown facets have the highest average frequency against a reference
//! table, keeping the first gem seen on ties.
//!
//! A gem's weight is the exact rational `sum / len`, where `sum` adds the
//! table's count for each of the gem's unknown facets and `len` is the number
//! of those facets.  Weights are compared by cross-multiplying, so no
//! precision is lost.

use vstd::prelude::*;
use vstd::arithmetic::mul::{
    lemma_mul_inequality, lemma_mul_is_distributive_add_other_way, lemma_mul_upper_bound,
};
use vstd::arithmetic::div_mod::lemma_fundamental_div_mod;
use crate::gem::{Gem, GemView};
use crate::freq::{FreqTable, gem_views, table_get};

verus! {

/// The sum of the table's counts over a list of facet names.
pub open spec fn weight_sum(m: Map<Seq<char>, usize>, facets: Seq<Seq<char>>) -> int
    decreases facets.len(),
{
    if facets.len() == 0 {
        0
    } else {
        weight_sum(m, facets.drop_last()) + table_get(m, facets.last())
    }
}

pub proof fn lemma_weight_sum_bound(m: Map<Seq<char>, usize>, facets: Seq<Seq<char>>)
    ensures
        0 <= weight_sum(m, facets) <= facets.len() * (usize::MAX as int),
    decreases facets.len(),
{
    if facets.len() == 0 {
    } else {
        lemma_weight_sum_bound(m, facets.drop_last());
        lemma_mul_is_distributive_add_other_way(
            usize::MAX as int,
            facets.len() - 1,
            1,
        );
    }
}

/// The average weight of gem `id` strictly exceeds that of the current best.
/// With no best yet, any positive weight wins.
pub open spec fn better_candidate(
    gems: Seq<GemView>,
    m: Map<Seq<char>, usize>,
    best: Option<usize>,
    id: usize,
) -> bool {
    &&& id < gems.len()
    &&& gems[id as int].facets.len() > 0
    &&& match best {
        None => weight_sum(m, gems[id as int].facets) > 0,
        Some(b) => weight_sum(m, gems[id as int].facets) * gems[b as int].facets.len()
            > weight_sum(m, gems[b as int].facets) * gems[id as int].facets.len(),
    }
}

/// The gem a left-to-right scan of `cands` ends on, starting from `best`:
/// each candidate replaces the best seen so far only when strictly better.
pub open spec fn select_best(
    gems: Seq<GemView>,
    m: Map<Seq<char>, usize>,
    cands: Seq<usize>,
    best: Option<usize>,
) -> Option<usize>
    decreases cands.len(),
{
    if cands.len() == 0 {
        best
    } else {
        let prev = select_best(gems, m, cands.drop_last(), best);
        if better_candidate(gems, m, prev, cands.last()) {
            Some(cands.last())
        } else {
            prev
        }
    }
}

/// Whichever gem the scan selects is a candidate with facets left.
pub proof fn lemma_select_best_in_candidates(
    gems: Seq<GemView>,
    m: Map<Seq<char>, usize>,
    cands: Seq<usize>,
)
    requires
        select_best(gems, m, cands, None::<usize>) is Some,
    ensures
        cands.contains(select_best(gems, m, cands, None::<usize>).unwrap()),
        select_best(gems, m, cands, None::<usize>).unwrap() < gems.len(),
        gems[select_best(gems, m, cands, None::<usize>).unwrap() as int].facets.len() > 0,
    decreases cands.len(),
{
    broadcast use vstd::seq_lib::group_seq_properties;

    let r = select_best(gems, m, cands, None::<usize>).unwrap();
    if cands.len() == 0 {
    } else {
        let prev = select_best(gems, m, cands.drop_last(), None::<usize>);
        if better_candidate(gems, m, prev, cands.last()) && r == cands.last() {
            assert(cands[cands.len() - 1] == r);
        } else {
            lemma_select_best_in_candidates(gems, m, cands.drop_last());
            assert(cands.drop_last().contains(r));
            let i = choose|i: int| 0 <= i < cands.drop_last().len() && cands.drop_last()[i] == r;
            assert(cands[i] == r);
        }
    }
}

/// The low 64 bits and the rest of a product of a u128 by a u64-sized factor.
fn mul_wide(s: u128, l: u64) -> (r: (u128, u64))
    ensures
        s * l == r.0 * 0x1_0000_0000_0000_0000 + r.1,
{
    let base: u128 = 0x1_0000_0000_0000_0000;
    let s_hi: u128 = s / base;
    let s_lo: u128 = s % base;
    proof {
        lemma_fundamental_div_mod(s as int, base as int);
        assert(s_hi <= 0xFFFF_FFFF_FFFF_FFFF) by {
            assert(s <= u128::MAX);
            assert(u128::MAX as int == (base as int) * 0xFFFF_FFFF_FFFF_FFFF + (base - 1));
            if s_hi > 0xFFFF_FFFF_FFFF_FFFF {
                lemma_mul_inequality(0x1_0000_0000_0000_0000, s_hi as int, base as int);
                assert((s_hi as int) * (base as int) >= 0x1_0000_0000_0000_0000 * (base as int));
            }
        }
    }
    let t: u128 = proof_mul_fits(s_lo, l as u128);
    let lo: u64 = (t % base) as u64;
    let carry: u128 = t / base;
    proof {
        lemma_fundamental_div_mod(t as int, base as int);
        assert(carry <= 0xFFFF_FFFF_FFFF_FFFF) by {
            if carry > 0xFFFF_FFFF_FFFF_FFFF {
                lemma_mul_inequality(0x1_0000_0000_0000_0000, carry as int, base as int);
            }
        }
        lemma_mul_upper_bound(
            s_hi as int,
            0xFFFF_FFFF_FFFF_FFFF,
            l as int,
            0xFFFF_FFFF_FFFF_FFFF,
        );
    }
    let hi: u128 = s_hi * (l as u128) + carry;
    proof {
        assert(s * l == hi * (base as int) + lo) by {
            assert(s == (s_hi as int) * (base as int) + s_lo);
            assert((s_lo as int) * (l as int) == (carry as int) * (base as int) + lo);
            assert(((s_hi as int) * (base as int) + (s_lo as int)) * (l as int)
                == (s_hi as int) * (l as int) * (base as int)
                    + (s_lo as int) * (l as int)) by (nonlinear_arith);
            assert((s_hi as int) * (l as int) * (base as int)
                + (carry as int) * (base as int)
                == ((s_hi as int) * (l as int) + (carry as int)) * (base as int))
                by (nonlinear_arith);
        }
    }
    (hi, lo)
}

/// A product of two factors below 2^64 fits in a u128.
fn proof_mul_fits(a: u128, b: u128) -> (r: u128)
    requires
        a <= 0xFFFF_FFFF_FFFF_FFFF,
        b <= 0xFFFF_FFFF_FFFF_FFFF,
    ensures
        r == a * b,
{
    proof {
        lemma_mul_upper_bound(a as int, 0xFFFF_FFFF_FFFF_FFFF, b as int, 0xFFFF_FFFF_FFFF_FFFF);
    }
    a * b
}

/// Whether `s1 / l1 > s2 / l2` as exact rationals, by cross-multiplying.
pub fn weight_exceeds(s1: u128, l1: usize, s2: u128, l2: usize) -> (r: bool)
    requires
        l1 >= 1,
        l2 >= 1,
    ensures
        r == ((s1 as int) * (l2 as int) > (s2 as int) * (l1 as int)),
{
    let a = mul_wide(s1, l2 as u64);
    let b = mul_wide(s2, l1 as u64);
    let r = a.0 > b.0 || (a.0 == b.0 && a.1 > b.1);
    proof {
        let base: int = 0x1_0000_0000_0000_0000;
        let x = (s1 as int) * (l2 as int);
        let y = (s2 as int) * (l1 as int);
        assert(x == (a.0 as int) * base + a.1);
        assert(y == (b.0 as int) * base + b.1);
        if a.0 > b.0 {
            lemma_mul_inequality(b.0 as int + 1, a.0 as int, base);
            assert(x > y);
        } else if a.0 == b.0 {
            assert((x > y) == (a.1 > b.1));
        } else {
            lemma_mul_inequality(a.0 as int + 1, b.0 as int, base);
            assert(y > x);
        }
    }
    r
}

/// The summed table counts of a gem's unknown facets, exact in a u128.
pub fn gem_weight_sum(gem: &Gem, table: &FreqTable) -> (r: u128)
    requires
        table.inv(),
    ensures
        r == weight_sum(table@, gem@.facets),
{
    let facets = gem.unknown_facets();
    let ghost m = table@;
    let ghost fv = gem@.facets;
    let mut sum: u128 = 0;
    let mut j: usize = 0;
    while j < facets.len()
        invariant
            0 <= j <= facets@.len(),
            crate::gem::name_views(facets@) == fv,
            table.inv(),
            m == table@,
            sum == weight_sum(m, fv.take(j as int)),
        decreases facets@.len() - j,
    {
        let c = table.get(&facets[j]);
        proof {
            lemma_weight_sum_bound(m, fv.take(j as int));
            assert(fv.take(j as int).len() * (usize::MAX as int)
                <= 0xFFFF_FFFF_FFFF_FFFF * 0xFFFF_FFFF_FFFF_FFFFint) by {
                lemma_mul_upper_bound(
                    fv.take(j as int).len() as int,
                    0xFFFF_FFFF_FFFF_FFFF,
                    usize::MAX as int,
                    0xFFFF_FFFF_FFFF_FFFF,
                );
            }
            assert(fv.take(j + 1).drop_last() == fv.take(j as int));
            assert(fv.take(j + 1).last() == fv[j as int]);
        }
        sum = sum + (c as u128);
        j = j + 1;
    }
    assert(fv.take(fv.len() as int) == fv);
    sum
}

/// Scans the candidates left to right and returns the id of the gem with the
/// strictly highest average frequency, or `None` when no candidate with
/// facets left scores above zero.
pub fn select_candidate(gems: &Vec<Gem>, cands: &Vec<usize>, table: &FreqTable) -> (r: Option<
    usize,
>)
    requires
        table.inv(),
        forall|k: int| 0 <= k < cands@.len() ==> #[trigger] cands@[k] < gems@.len(),
    ensures
        r == select_best(gem_views(gems@), table@, cands@, None::<usize>),
{
    broadcast use vstd::seq_lib::group_seq_properties;

    let ghost gv = gem_views(gems@);
    let ghost m = table@;
    let mut best: Option<usize> = None;
    let mut best_sum: u128 = 0;
    let mut best_len: usize = 0;
    let mut i: usize = 0;
    while i < cands.len()
        invariant
            0 <= i <= cands@.len(),
            best == select_best(gv, m, cands@.take(i as int), None::<usize>),
            match best {
                None => true,
                Some(b) => b < gems@.len() && best_len == gv[b as int].facets.len()
                    && best_len >= 1 && best_sum == weight_sum(m, gv[b as int].facets),
            },
        decreases cands@.len() - i,
    {
        let id = cands[i];
        assert(gv[id as int] == gems@[id as int]@);
        let len = gems[id].unknown_count();
        let better: bool;
        let sum = gem_weight_sum(&gems[id], table);
        if len == 0 {
            better = false;
        } else {
            match best {
                None => {
                    better = sum > 0;
                },
                Some(_) => {
                    better = weight_exceeds(sum, len, best_sum, best_len);
                },
            }
        }
        assert(better == better_candidate(gv, m, best, id));
        if better {
            best = Some(id);
            best_sum = sum;
            best_len = len;
        }
        proof {
            assert(cands@.take(i + 1).drop_last() == cands@.take(i as int));
            assert(cands@.take(i + 1).last() == id);
        }
        i = i + 1;
    }
    assert(cands@.take(cands@.len() as int) == cands@);
    best
}

} // verus!
