//! The ranking order. A species with counters `(games, wins)` is ranked by its
//! deviations score `(winrate - 50) * sqrt(games) / 50`, where `winrate` is
//! `100 * wins / games`. That score equals `(2 * wins - games) / sqrt(games)`,
//! so two scores compare exactly by the sign of `2 * wins - games` and, within
//! one sign, by the cross-multiplied squares: no rounding enters the order.
use vstd::multiset::Multiset;
use vstd::prelude::*;

verus! {

/// The numerator `2 * wins - games` of the deviations score.
pub open spec fn dev_num(c: (u32, u32)) -> int {
    2 * (c.1 as int) - (c.0 as int)
}

/// The deviations score of `c1` is strictly below the one of `c2`.
pub open spec fn dev_lt(c1: (u32, u32), c2: (u32, u32)) -> bool {
    let a1 = dev_num(c1);
    let a2 = dev_num(c2);
    ||| (a1 < 0 && a2 >= 0)
    ||| (a1 >= 0 && a2 >= 0 && a1 * a1 * (c2.0 as int) < a2 * a2 * (c1.0 as int))
    ||| (a1 < 0 && a2 < 0 && a1 * a1 * (c2.0 as int) > a2 * a2 * (c1.0 as int))
}

/// Two counter pairs with equal deviations scores.
pub open spec fn dev_eq(c1: (u32, u32), c2: (u32, u32)) -> bool {
    !dev_lt(c1, c2) && !dev_lt(c2, c1)
}

/// Compares two counter pairs for a descending sort by deviations: `Less`
/// puts the first pair first.
pub fn compare_deviations_desc(c1: &(u32, u32), c2: &(u32, u32)) -> (r: core::cmp::Ordering)
    ensures
        r == core::cmp::Ordering::Less <==> dev_lt(*c2, *c1),
        r == core::cmp::Ordering::Greater <==> dev_lt(*c1, *c2),
        r == core::cmp::Ordering::Equal <==> dev_eq(*c1, *c2),
{
    let a1: i64 = 2 * (c1.1 as i64) - (c1.0 as i64);
    let a2: i64 = 2 * (c2.1 as i64) - (c2.0 as i64);
    proof {
        lemma_square_times_games_bounds(a1 as int, c2.0 as int);
        lemma_square_times_games_bounds(a2 as int, c1.0 as int);
    }
    let s1: i128 = (a1 as i128) * (a1 as i128) * (c2.0 as i128);
    let s2: i128 = (a2 as i128) * (a2 as i128) * (c1.0 as i128);
    if a1 >= 0 && a2 < 0 {
        core::cmp::Ordering::Less
    } else if a1 < 0 && a2 >= 0 {
        core::cmp::Ordering::Greater
    } else if a1 >= 0 {
        if s1 > s2 {
            core::cmp::Ordering::Less
        } else if s1 < s2 {
            core::cmp::Ordering::Greater
        } else {
            core::cmp::Ordering::Equal
        }
    } else {
        if s1 < s2 {
            core::cmp::Ordering::Less
        } else if s1 > s2 {
            core::cmp::Ordering::Greater
        } else {
            core::cmp::Ordering::Equal
        }
    }
}

/// The cross-multiplied square of a deviations numerator stays far inside
/// the 128-bit range.
proof fn lemma_square_times_games_bounds(a: int, g: int)
    by (nonlinear_arith)
    requires
        -0x200000000 <= a <= 0x200000000,
        0 <= g < 0x100000000,
    ensures
        0 <= a * a <= 0x40000000000000000,
        0 <= a * a * g < 0x4000000000000000000000000,
{
}

/// Inserts `x` into a sequence already sorted descending by deviations,
/// behind every entry whose score is not below the score of `x`.
pub open spec fn insert_desc(
    sorted: Seq<(Seq<char>, (u32, u32))>,
    x: (Seq<char>, (u32, u32)),
) -> Seq<(Seq<char>, (u32, u32))>
    decreases sorted.len(),
{
    if sorted.len() == 0 {
        seq![x]
    } else if !dev_lt(sorted[0].1, x.1) {
        seq![sorted[0]] + insert_desc(sorted.drop_first(), x)
    } else {
        seq![x] + sorted
    }
}

/// The stable descending sort of the entries by deviations: entries with
/// equal scores keep their insertion order.
pub open spec fn sort_by_deviations(es: Seq<(Seq<char>, (u32, u32))>) -> Seq<
    (Seq<char>, (u32, u32)),
>
    decreases es.len(),
{
    if es.len() == 0 {
        Seq::empty()
    } else {
        insert_desc(sort_by_deviations(es.drop_last()), es.last())
    }
}

/// Entries in descending deviations order: no earlier entry scores below a
/// later one.
pub open spec fn sorted_desc(s: Seq<(Seq<char>, (u32, u32))>) -> bool {
    forall|i: int, j: int| 0 <= i < j < s.len() ==> !dev_lt(s[i].1, s[j].1)
}

/// Some entry carries the given species name.
pub open spec fn has_key(es: Seq<(Seq<char>, (u32, u32))>, k: Seq<char>) -> bool {
    exists|i: int| 0 <= i < es.len() && (#[trigger] es[i]).0 == k
}

/// Two deviations scores cannot each be strictly below the other.
proof fn lemma_dev_asym(c1: (u32, u32), c2: (u32, u32))
    ensures
        !(dev_lt(c1, c2) && dev_lt(c2, c1)),
{
}

/// A product chain: cross-multiplied comparisons compose over a positive
/// middle denominator.
proof fn lemma_prod_chain(x1: int, x2: int, x3: int, g1: int, g2: int, g3: int)
    by (nonlinear_arith)
    requires
        x1 * g2 < x2 * g1,
        x2 * g3 < x3 * g2,
        0 < g1,
        0 < g2,
        0 < g3,
        0 <= x1,
        0 <= x2,
        0 <= x3,
    ensures
        x1 * g3 < x3 * g1,
{
}

/// Squares of deviations numerators are nonnegative.
proof fn lemma_sq_nonneg(a: int)
    by (nonlinear_arith)
    ensures
        0 <= a * a,
{
}

/// Strict transitivity of the deviations order on valid counters.
proof fn lemma_dev_lt_trans(c1: (u32, u32), c2: (u32, u32), c3: (u32, u32))
    requires
        0 < c1.0,
        0 < c2.0,
        0 < c3.0,
        dev_lt(c1, c2),
        dev_lt(c2, c3),
    ensures
        dev_lt(c1, c3),
{
    let a1 = dev_num(c1);
    let a2 = dev_num(c2);
    let a3 = dev_num(c3);
    lemma_sq_nonneg(a1);
    lemma_sq_nonneg(a2);
    lemma_sq_nonneg(a3);
    if a1 >= 0 && a2 >= 0 {
        if a3 >= 0 {
            lemma_prod_chain(a1 * a1, a2 * a2, a3 * a3, c1.0 as int, c2.0 as int, c3.0 as int);
        }
    } else if a1 < 0 && a2 < 0 && a3 < 0 {
        lemma_prod_chain(a3 * a3, a2 * a2, a1 * a1, c3.0 as int, c2.0 as int, c1.0 as int);
    }
}

/// A score at most a second one, itself strictly below a third, is strictly
/// below the third.
proof fn lemma_dev_le_lt_trans(c1: (u32, u32), c2: (u32, u32), c3: (u32, u32))
    requires
        0 < c1.0,
        0 < c2.0,
        0 < c3.0,
        !dev_lt(c2, c1),
        dev_lt(c2, c3),
    ensures
        dev_lt(c1, c3),
{
    let a1 = dev_num(c1);
    let a2 = dev_num(c2);
    let a3 = dev_num(c3);
    lemma_sq_nonneg(a1);
    lemma_sq_nonneg(a2);
    lemma_sq_nonneg(a3);
    if dev_lt(c1, c2) {
        lemma_dev_lt_trans(c1, c2, c3);
    } else {
        // c1 and c2 have equal scores: same sign and equal cross products.
        if a1 >= 0 && a2 >= 0 {
            if a3 >= 0 {
                lemma_prod_eq_lt(
                    a1 * a1,
                    a2 * a2,
                    a3 * a3,
                    c1.0 as int,
                    c2.0 as int,
                    c3.0 as int,
                );
            }
        } else if a1 < 0 && a2 < 0 {
            if a3 >= 0 {
            } else {
                lemma_prod_lt_eq(a3 * a3, a2 * a2, a1 * a1, c3.0 as int, c2.0 as int, c1.0 as int);
            }
        }
    }
}

/// An equality of cross products composes with a strict one.
proof fn lemma_prod_eq_lt(x1: int, x2: int, x3: int, g1: int, g2: int, g3: int)
    by (nonlinear_arith)
    requires
        x1 * g2 == x2 * g1,
        x2 * g3 < x3 * g2,
        0 < g1,
        0 < g2,
        0 < g3,
    ensures
        x1 * g3 < x3 * g1,
{
}

/// A strict comparison of cross products composes with an equality.
proof fn lemma_prod_lt_eq(x1: int, x2: int, x3: int, g1: int, g2: int, g3: int)
    by (nonlinear_arith)
    requires
        x1 * g2 < x2 * g1,
        x2 * g3 == x3 * g2,
        0 < g1,
        0 < g2,
        0 < g3,
    ensures
        x1 * g3 < x3 * g1,
{
}

/// The slot where `insert_desc` places its new entry.
pub open spec fn ins_pos(sorted: Seq<(Seq<char>, (u32, u32))>, x: (Seq<char>, (u32, u32))) -> int
    decreases sorted.len(),
{
    if sorted.len() == 0 {
        0
    } else if !dev_lt(sorted[0].1, x.1) {
        1 + ins_pos(sorted.drop_first(), x)
    } else {
        0
    }
}

/// `insert_desc` splits the sequence at `ins_pos`: everything not scoring
/// below `x` stays in front, and the first entry scoring below `x`, if any,
/// moves behind it.
proof fn lemma_insert_shape(sorted: Seq<(Seq<char>, (u32, u32))>, x: (Seq<char>, (u32, u32)))
    ensures
        0 <= ins_pos(sorted, x) <= sorted.len(),
        insert_desc(sorted, x) == sorted.take(ins_pos(sorted, x)) + seq![x] + sorted.skip(
            ins_pos(sorted, x),
        ),
        forall|m: int| 0 <= m < ins_pos(sorted, x) ==> !dev_lt((#[trigger] sorted[m]).1, x.1),
        ins_pos(sorted, x) < sorted.len() ==> dev_lt(sorted[ins_pos(sorted, x)].1, x.1),
    decreases sorted.len(),
{
    let k = ins_pos(sorted, x);
    if sorted.len() == 0 {
        assert(insert_desc(sorted, x) =~= sorted.take(0) + seq![x] + sorted.skip(0));
    } else if !dev_lt(sorted[0].1, x.1) {
        lemma_insert_shape(sorted.drop_first(), x);
        let k2 = ins_pos(sorted.drop_first(), x);
        assert(insert_desc(sorted, x) =~= sorted.take(k) + seq![x] + sorted.skip(k)) by {
            assert(insert_desc(sorted, x) == seq![sorted[0]] + insert_desc(
                sorted.drop_first(),
                x,
            ));
            assert(insert_desc(sorted.drop_first(), x) == sorted.drop_first().take(k2) + seq![x]
                + sorted.drop_first().skip(k2));
            assert(sorted.drop_first().take(k2) =~= sorted.take(k).drop_first());
            assert(sorted.drop_first().skip(k2) =~= sorted.skip(k));
        }
        assert forall|m: int| 0 <= m < k implies !dev_lt((#[trigger] sorted[m]).1, x.1) by {
            if m > 0 {
                assert(sorted.drop_first()[m - 1] == sorted[m]);
            }
        }
        if k < sorted.len() {
            assert(sorted.drop_first()[k2] == sorted[k]);
        }
    } else {
        assert(insert_desc(sorted, x) =~= sorted.take(0) + seq![x] + sorted.skip(0));
    }
}

/// What `insert_desc` keeps of its input: the length grows by one, the
/// multiset gains `x`, exactly the keys of the input and the key of `x` are
/// present, distinct keys stay distinct when the key of `x` is new, valid
/// counters stay valid, and a sorted input stays sorted.
proof fn lemma_insert_props(sorted: Seq<(Seq<char>, (u32, u32))>, x: (Seq<char>, (u32, u32)))
    ensures
        insert_desc(sorted, x).len() == sorted.len() + 1,
        insert_desc(sorted, x).to_multiset() == sorted.to_multiset().insert(x),
        forall|k: Seq<char>|
            #[trigger] has_key(insert_desc(sorted, x), k) == (has_key(sorted, k) || k == x.0),
        crate::stats::distinct_keys(sorted) && !has_key(sorted, x.0)
            ==> crate::stats::distinct_keys(insert_desc(sorted, x)),
        crate::stats::all_counters_wf(sorted) && crate::stats::counters_wf(x.1)
            ==> crate::stats::all_counters_wf(insert_desc(sorted, x)),
        crate::stats::all_counters_wf(sorted) && crate::stats::counters_wf(x.1) && sorted_desc(
            sorted,
        ) ==> sorted_desc(insert_desc(sorted, x)),
{
    broadcast use vstd::seq_lib::group_to_multiset_ensures;

    lemma_insert_shape(sorted, x);
    let k = ins_pos(sorted, x);
    let r = insert_desc(sorted, x);
    assert(sorted.take(k) + sorted.skip(k) =~= sorted);
    vstd::seq_lib::lemma_multiset_commutative(sorted.take(k) + seq![x], sorted.skip(k));
    vstd::seq_lib::lemma_multiset_commutative(sorted.take(k), seq![x]);
    vstd::seq_lib::lemma_multiset_commutative(sorted.take(k), sorted.skip(k));
    assert(seq![x].to_multiset() =~= Multiset::empty().insert(x)) by {
        assert(seq![x] =~= Seq::<(Seq<char>, (u32, u32))>::empty().push(x));
    }
    assert(r.to_multiset() =~= sorted.to_multiset().insert(x));
    // Indexing across the three pieces of the split.
    assert forall|i: int| 0 <= i < r.len() implies (#[trigger] r[i]) == (if i < k {
        sorted[i]
    } else if i == k {
        x
    } else {
        sorted[i - 1]
    }) by {}
    assert forall|key: Seq<char>| #[trigger]
        has_key(r, key) == (has_key(sorted, key) || key == x.0) by {
        if has_key(r, key) {
            let i = choose|i: int| 0 <= i < r.len() && (#[trigger] r[i]).0 == key;
            if i < k {
                assert(sorted[i].0 == key);
            } else if i > k {
                assert(sorted[i - 1].0 == key);
            }
        }
        if has_key(sorted, key) {
            let i = choose|i: int| 0 <= i < sorted.len() && (#[trigger] sorted[i]).0 == key;
            if i < k {
                assert(r[i].0 == key);
            } else {
                assert(r[i + 1].0 == key);
            }
        }
        if key == x.0 {
            assert(r[k].0 == key);
        }
    }
    if crate::stats::all_counters_wf(sorted) && crate::stats::counters_wf(x.1) && sorted_desc(
        sorted,
    ) {
        assert forall|i: int, j: int| 0 <= i < j < r.len() implies !dev_lt(r[i].1, r[j].1) by {
            if i < k && j == k {
                // an entry kept in front does not score below x
            } else if i == k && j > k {
                // x does not score below a moved entry
                if dev_lt(x.1, sorted[j - 1].1) {
                    assert(dev_lt(sorted[k].1, x.1));
                    assert(!dev_lt(sorted[k].1, sorted[j - 1].1));
                    lemma_dev_le_lt_trans(sorted[j - 1].1, sorted[k].1, x.1);
                    lemma_dev_asym(sorted[j - 1].1, x.1);
                }
            }
        }
    }
}

/// What ranking keeps of the store: the same length, the same entries as a
/// multiset, the same species, distinctness and counter validity; and the
/// result is in descending deviations order.
pub proof fn lemma_sort_props(es: Seq<(Seq<char>, (u32, u32))>)
    ensures
        sort_by_deviations(es).len() == es.len(),
        sort_by_deviations(es).to_multiset() == es.to_multiset(),
        forall|k: Seq<char>| #[trigger] has_key(sort_by_deviations(es), k) == has_key(es, k),
        crate::stats::distinct_keys(es) ==> crate::stats::distinct_keys(sort_by_deviations(es)),
        crate::stats::all_counters_wf(es) ==> crate::stats::all_counters_wf(
            sort_by_deviations(es),
        ) && sorted_desc(sort_by_deviations(es)),
    decreases es.len(),
{
    broadcast use vstd::seq_lib::group_to_multiset_ensures;

    let r = sort_by_deviations(es);
    if es.len() == 0 {
        assert(r.to_multiset() =~= es.to_multiset());
        assert forall|k: Seq<char>| #[trigger] has_key(r, k) == has_key(es, k) by {}
    } else {
        let es2 = es.drop_last();
        let x = es.last();
        lemma_sort_props(es2);
        lemma_insert_props(sort_by_deviations(es2), x);
        assert(es2.push(x) =~= es);
        assert(es2.push(x).to_multiset() == es2.to_multiset().insert(x));
        assert forall|k: Seq<char>| #[trigger] has_key(r, k) == has_key(es, k) by {
            assert(has_key(r, k) == (has_key(es2, k) || k == x.0));
            if has_key(es2, k) {
                let i = choose|i: int| 0 <= i < es2.len() && (#[trigger] es2[i]).0 == k;
                assert(es[i].0 == k);
            }
            if k == x.0 {
                assert(es[es.len() - 1].0 == k);
            }
            if has_key(es, k) && !(has_key(es2, k) || k == x.0) {
                let i = choose|i: int| 0 <= i < es.len() && (#[trigger] es[i]).0 == k;
                assert(es2[i].0 == k);
            }
        }
        if crate::stats::distinct_keys(es) {
            assert forall|i: int, j: int|
                0 <= i < j < es2.len() implies (#[trigger] es2[i]).0 != (#[trigger] es2[j]).0 by {
                assert(es[i] == es2[i]);
            }
            assert(!has_key(es2, x.0)) by {
                if has_key(es2, x.0) {
                    let i = choose|i: int| 0 <= i < es2.len() && (#[trigger] es2[i]).0 == x.0;
                    assert(es[i].0 == es[es.len() - 1].0);
                }
            }
        }
        if crate::stats::all_counters_wf(es) {
            assert forall|i: int|
                0 <= i < es2.len() implies crate::stats::counters_wf(
                (#[trigger] es2[i]).1,
            ) by {
                assert(es2[i] == es[i]);
            }
            assert(crate::stats::counters_wf(x.1));
        }
    }
}

/// Ranking a store already in ranked order leaves it unchanged.
pub proof fn lemma_sort_of_sorted(es: Seq<(Seq<char>, (u32, u32))>)
    requires
        sorted_desc(es),
        crate::stats::all_counters_wf(es),
    ensures
        sort_by_deviations(es) == es,
    decreases es.len(),
{
    if es.len() > 0 {
        let es2 = es.drop_last();
        let x = es.last();
        assert forall|i: int, j: int|
            0 <= i < j < es2.len() implies !dev_lt((#[trigger] es2[i]).1, (#[trigger] es2[j]).1) by {
            assert(es2[i] == es[i] && es2[j] == es[j]);
        }
        assert forall|i: int|
            0 <= i < es2.len() implies crate::stats::counters_wf((#[trigger] es2[i]).1) by {
            assert(es2[i] == es[i]);
        }
        lemma_sort_of_sorted(es2);
        lemma_insert_shape(es2, x);
        let k = ins_pos(es2, x);
        if k < es2.len() {
            assert(dev_lt(es2[k].1, x.1));
            assert(!dev_lt(es[k].1, es[es.len() - 1].1));
        }
        assert(sort_by_deviations(es) =~= es);
    }
}

/// Ranking is stable: two species with equal deviations scores appear in the
/// ranked output in the order the store first saw them.
pub proof fn lemma_ranking_stable(es: Seq<(Seq<char>, (u32, u32))>, i: int, j: int)
    requires
        0 <= i < j < es.len(),
        crate::stats::distinct_keys(es),
        crate::stats::all_counters_wf(es),
        dev_eq(es[i].1, es[j].1),
    ensures
        exists|i2: int, j2: int|
            0 <= i2 < j2 < sort_by_deviations(es).len() && sort_by_deviations(es)[i2] == es[i]
                && sort_by_deviations(es)[j2] == es[j],
    decreases es.len(),
{
    let r = sort_by_deviations(es);
    let es2 = es.drop_last();
    let x = es.last();
    let r2 = sort_by_deviations(es2);
    lemma_sort_props(es2);
    lemma_insert_shape(r2, x);
    let k = ins_pos(r2, x);
    assert forall|a: int, b: int|
        0 <= a < b < es2.len() implies (#[trigger] es2[a]).0 != (#[trigger] es2[b]).0 by {
        assert(es[a] == es2[a] && es[b] == es2[b]);
    }
    assert forall|a: int|
        0 <= a < es2.len() implies crate::stats::counters_wf((#[trigger] es2[a]).1) by {
        assert(es2[a] == es[a]);
    }
    if j == es.len() - 1 {
        // The later entry is the one being inserted; the earlier one sits in
        // the sorted prefix because its score is not below the score of x.
        broadcast use vstd::seq_lib::group_to_multiset_ensures;

        assert(es2[i] == es[i]);
        assert(es2.contains(es[i]));
        assert(es2.to_multiset().count(es[i]) > 0);
        assert(r2.to_multiset().count(es[i]) > 0);
        assert(r2.contains(es[i]));
        let p = choose|p: int| 0 <= p < r2.len() && r2[p] == es[i];
        if p >= k {
            assert(dev_lt(r2[k].1, x.1));
            assert(!dev_lt(r2[k].1, r2[p].1)) by {
                if k < p {
                    assert(sorted_desc(r2));
                }
            }
            lemma_dev_le_lt_trans(r2[p].1, r2[k].1, x.1);
            assert(dev_lt(es[i].1, es[j].1));
        }
        assert(r[p] == r2[p]);
        assert(r[k] == x);
        assert(0 <= p < k < r.len() && r[p] == es[i] && r[k] == es[j]);
    } else {
        assert(es2[i] == es[i] && es2[j] == es[j]);
        lemma_ranking_stable(es2, i, j);
        let (i2, j2): (int, int) = choose|i2: int, j2: int|
            0 <= i2 < j2 < r2.len() && r2[i2] == es2[i] && r2[j2] == es2[j];
        let i3 = if i2 < k {
            i2
        } else {
            i2 + 1
        };
        let j3 = if j2 < k {
            j2
        } else {
            j2 + 1
        };
        assert(r[i3] == r2[i2] && r[j3] == r2[j2]);
        assert(0 <= i3 < j3 < r.len() && r[i3] == es[i] && r[j3] == es[j]);
    }
}

} // verus!
