//! Which deleted line goes with which added line.
use crate::similarity::{
    above, at_least_half, denominator, law_at_least_half, lemma_order_step, numerator, RatioView, SimilarityRatio,
};
use vstd::prelude::*;
use vstd::relations::*;
use vstd::seq_lib::*;

verus! {

/// The values of a table of ratios.
pub open spec fn ratio_rows(ratios: Seq<Vec<SimilarityRatio>>) -> Seq<Seq<RatioView>> {
    Seq::new(
        ratios.len(),
        |d: int| Seq::new(ratios[d]@.len(), |a: int| ratios[d]@[a]@),
    )
}

/// The ratio of a pair of a deleted and an added line.
pub open spec fn ratio_at(rows: Seq<Seq<RatioView>>, p: (usize, usize)) -> RatioView {
    rows[p.0 as int][p.1 as int]
}

/// Whether the pair `p` comes first by position.
pub open spec fn earlier(p: (usize, usize), q: (usize, usize)) -> bool {
    p.0 < q.0 || (p.0 == q.0 && p.1 <= q.1)
}

/// Whether the pair `p` is no worse than `q`: more similar, or as similar and not later.
pub open spec fn ranks(rows: Seq<Seq<RatioView>>, p: (usize, usize), q: (usize, usize)) -> bool {
    let r = ratio_at(rows, p);
    let s = ratio_at(rows, q);
    above(r, s) || (!above(s, r) && earlier(p, q))
}

/// The order in which pairs are tried.
pub open spec fn ranking(rows: Seq<Seq<RatioView>>) -> spec_fn(
    (usize, usize),
    (usize, usize),
) -> bool {
    |p: (usize, usize), q: (usize, usize)| ranks(rows, p, q)
}

/// The ranking is a total order.
pub proof fn lemma_ranking_total(rows: Seq<Seq<RatioView>>)
    ensures
        total_ordering(ranking(rows)),
{
    let leq = ranking(rows);
    assert forall|x: (usize, usize), y: (usize, usize), z: (usize, usize)| #[trigger]
        leq(x, y) && #[trigger] leq(y, z) implies leq(x, z) by {
        let r = ratio_at(rows, x);
        let s = ratio_at(rows, y);
        let t = ratio_at(rows, z);
        lemma_order_step(
            numerator(r),
            denominator(r),
            numerator(s),
            denominator(s),
            numerator(t),
            denominator(t),
        );
    }
    assert(antisymmetric(leq));
    assert(strongly_connected(leq));
}

/// The pairs of the deleted line `d` with one of the first `n` added lines that are similar enough.
pub open spec fn row_candidates(row: Seq<RatioView>, d: usize, n: int) -> Seq<(usize, usize)>
    decreases n,
{
    if n <= 0 {
        Seq::empty()
    } else {
        let before = row_candidates(row, d, n - 1);
        if at_least_half(row[n - 1]) {
            before.push((d, (n - 1) as usize))
        } else {
            before
        }
    }
}

/// The pairs of one of the first `n` deleted lines with an added line that are similar enough.
pub open spec fn candidates(rows: Seq<Seq<RatioView>>, n: int) -> Seq<(usize, usize)>
    decreases n,
{
    if n <= 0 {
        Seq::empty()
    } else {
        candidates(rows, n - 1) + row_candidates(
            rows[n - 1],
            (n - 1) as usize,
            rows[n - 1].len() as int,
        )
    }
}

/// Whether two pairs have a line in common.
pub open spec fn clash(p: (usize, usize), q: (usize, usize)) -> bool {
    p.0 == q.0 || p.1 == q.1
}

/// Whether one of the pairs has a line in common with `q`.
pub open spec fn clashes(pairs: Seq<(usize, usize)>, q: (usize, usize)) -> bool {
    exists|k: int| 0 <= k < pairs.len() && clash(#[trigger] pairs[k], q)
}

/// The pairs that are taken when they are tried in order, and each is taken whose lines are both
/// still free.
pub open spec fn greedy(order: Seq<(usize, usize)>) -> Seq<(usize, usize)>
    decreases order.len(),
{
    if order.len() == 0 {
        Seq::empty()
    } else {
        let taken = greedy(order.drop_last());
        if clashes(taken, order.last()) {
            taken
        } else {
            taken.push(order.last())
        }
    }
}

/// The pairs of similar lines: of those that are similar enough, best first.
#[verifier::opaque]
pub open spec fn best_pairs(rows: Seq<Seq<RatioView>>) -> Seq<(usize, usize)> {
    greedy(candidates(rows, rows.len() as int).sort_by(ranking(rows)))
}

/// Whether every row of a table has `n` entries.
pub open spec fn rectangular(rows: Seq<Seq<RatioView>>, n: int) -> bool {
    forall|d: int| 0 <= d < rows.len() ==> (#[trigger] rows[d]).len() == n
}

/// Whether a pair is in a table and similar enough.
pub open spec fn is_candidate(rows: Seq<Seq<RatioView>>, p: (usize, usize)) -> bool {
    p.0 < rows.len() && p.1 < rows[p.0 as int].len() && at_least_half(ratio_at(rows, p))
}

/// Whether `ranks` holds, for two pairs of a table.
fn ranks_before(ratios: &Vec<Vec<SimilarityRatio>>, p: (usize, usize), q: (usize, usize)) -> (r: bool)
    requires
        p.0 < ratios@.len(),
        p.1 < ratios@[p.0 as int]@.len(),
        q.0 < ratios@.len(),
        q.1 < ratios@[q.0 as int]@.len(),
    ensures
        r == ranks(ratio_rows(ratios@), p, q),
{
    let a = &ratios[p.0][p.1];
    let b = &ratios[q.0][q.1];
    proof {
        let rows = ratio_rows(ratios@);
        assert(ratio_at(rows, p) == a@);
        assert(ratio_at(rows, q) == b@);
    }
    if a.is_above(b) {
        true
    } else if b.is_above(a) {
        false
    } else {
        p.0 < q.0 || (p.0 == q.0 && p.1 <= q.1)
    }
}

/// Whether the pairs are all in the table.
spec fn in_table(ratios: Seq<Vec<SimilarityRatio>>, pairs: Seq<(usize, usize)>) -> bool {
    forall|k: int|
        0 <= k < pairs.len() ==> (#[trigger] pairs[k]).0 < ratios.len() && pairs[k].1
            < ratios[pairs[k].0 as int]@.len()
}

proof fn lemma_multiset_push(s: Seq<(usize, usize)>, x: (usize, usize))
    ensures
        s.push(x).to_multiset() == s.to_multiset().insert(x),
{
    broadcast use group_to_multiset_ensures;

}

/// Merges two lists that are in ranking order.
fn merge_ranked(
    ratios: &Vec<Vec<SimilarityRatio>>,
    left: &Vec<(usize, usize)>,
    right: &Vec<(usize, usize)>,
) -> (r: Vec<(usize, usize)>)
    requires
        in_table(ratios@, left@),
        in_table(ratios@, right@),
        sorted_by(left@, ranking(ratio_rows(ratios@))),
        sorted_by(right@, ranking(ratio_rows(ratios@))),
    ensures
        r@.to_multiset() == left@.to_multiset().add(right@.to_multiset()),
        sorted_by(r@, ranking(ratio_rows(ratios@))),
        in_table(ratios@, r@),
{
    let ghost leq = ranking(ratio_rows(ratios@));
    let mut out: Vec<(usize, usize)> = Vec::new();
    let mut i: usize = 0;
    let mut j: usize = 0;
    proof {
        lemma_ranking_total(ratio_rows(ratios@));
        assert(left@.take(0) =~= Seq::<(usize, usize)>::empty());
        assert(right@.take(0) =~= Seq::<(usize, usize)>::empty());
        broadcast use group_to_multiset_ensures;
        assert(out@ =~= Seq::<(usize, usize)>::empty());
        assert(out@.to_multiset() =~= left@.take(0).to_multiset().add(right@.take(0).to_multiset()));
    }
    while i < left.len() || j < right.len()
        invariant
            i <= left@.len(),
            j <= right@.len(),
            leq == ranking(ratio_rows(ratios@)),
            total_ordering(leq),
            in_table(ratios@, left@),
            in_table(ratios@, right@),
            in_table(ratios@, out@),
            sorted_by(left@, leq),
            sorted_by(right@, leq),
            sorted_by(out@, leq),
            forall|a: int, b: int|
                0 <= a < out@.len() && i <= b < left@.len() ==> leq(
                    #[trigger] out@[a],
                    #[trigger] left@[b],
                ),
            forall|a: int, b: int|
                0 <= a < out@.len() && j <= b < right@.len() ==> leq(
                    #[trigger] out@[a],
                    #[trigger] right@[b],
                ),
            out@.to_multiset() == left@.take(i as int).to_multiset().add(
                right@.take(j as int).to_multiset(),
            ),
        decreases left@.len() - i + right@.len() - j,
    {
        let from_left: bool = if i == left.len() {
            false
        } else if j == right.len() {
            true
        } else {
            ranks_before(ratios, left[i], right[j])
        };
        let ghost before = out@;
        if from_left {
            let x = left[i];
            out.push(x);
            proof {
                assert(left@.take(i + 1) =~= left@.take(i as int).push(x));
                lemma_multiset_push(left@.take(i as int), x);
                lemma_multiset_push(before, x);
                assert(before.to_multiset().insert(x) =~= left@.take(i as int).to_multiset().insert(
                    x,
                ).add(right@.take(j as int).to_multiset()));
                assert forall|b: int| j <= b < right@.len() implies leq(x, #[trigger] right@[b]) by {
                    assert(leq(x, right@[j as int]));
                    if b > j {
                        assert(leq(right@[j as int], right@[b]));
                    }
                }
            }
            i = i + 1;
        } else {
            let x = right[j];
            out.push(x);
            proof {
                assert(right@.take(j + 1) =~= right@.take(j as int).push(x));
                lemma_multiset_push(right@.take(j as int), x);
                lemma_multiset_push(before, x);
                assert(before.to_multiset().insert(x) =~= left@.take(i as int).to_multiset().add(
                    right@.take(j as int).to_multiset().insert(x),
                ));
                assert forall|b: int| i <= b < left@.len() implies leq(x, #[trigger] left@[b]) by {
                    assert(leq(x, left@[i as int]));
                    if b > i {
                        assert(leq(left@[i as int], left@[b]));
                    }
                }
            }
            j = j + 1;
        }
    }
    proof {
        assert(left@.take(i as int) =~= left@);
        assert(right@.take(j as int) =~= right@);
    }
    out
}

/// Puts pairs in ranking order.
fn sort_ranked(ratios: &Vec<Vec<SimilarityRatio>>, pairs: Vec<(usize, usize)>) -> (r: Vec<
    (usize, usize),
>)
    requires
        in_table(ratios@, pairs@),
    ensures
        r@.to_multiset() == pairs@.to_multiset(),
        sorted_by(r@, ranking(ratio_rows(ratios@))),
        in_table(ratios@, r@),
    decreases pairs@.len(),
{
    let n: usize = pairs.len();
    if n <= 1 {
        return pairs;
    }
    let ghost all = pairs@;
    let mut left: Vec<(usize, usize)> = pairs;
    let right: Vec<(usize, usize)> = left.split_off(n / 2);
    proof {
        assert(all =~= left@ + right@);
        lemma_multiset_commutative(left@, right@);
        assert forall|k: int| 0 <= k < right@.len() implies (#[trigger] right@[k]).0 < ratios@.len()
            && right@[k].1 < ratios@[right@[k].0 as int]@.len() by {
            assert(right@[k] == all[k + n / 2]);
        }
        assert forall|k: int| 0 <= k < left@.len() implies (#[trigger] left@[k]).0 < ratios@.len()
            && left@[k].1 < ratios@[left@[k].0 as int]@.len() by {
            assert(left@[k] == all[k]);
        }
    }
    let left = sort_ranked(ratios, left);
    let right = sort_ranked(ratios, right);
    merge_ranked(ratios, &left, &right)
}

/// The pairs of a row that are similar enough are in it.
proof fn lemma_row_candidates(row: Seq<RatioView>, d: usize, n: int)
    requires
        0 <= n <= usize::MAX,
    ensures
        forall|k: int|
            0 <= k < row_candidates(row, d, n).len() ==> {
                let p = #[trigger] row_candidates(row, d, n)[k];
                p.0 == d && p.1 < n && at_least_half(row[p.1 as int])
            },
        forall|a: int|
            0 <= a < n && at_least_half(#[trigger] row[a]) ==> row_candidates(row, d, n).contains(
                (d, a as usize),
            ),
    decreases n,
{
    if n > 0 {
        lemma_row_candidates(row, d, n - 1);
        let before = row_candidates(row, d, n - 1);
        let after = row_candidates(row, d, n);
        assert forall|k: int| 0 <= k < after.len() implies {
            let p = #[trigger] after[k];
            p.0 == d && p.1 < n && at_least_half(row[p.1 as int])
        } by {
            if k < before.len() {
                assert(after[k] == before[k]);
            }
        }
        assert forall|a: int| 0 <= a < n && at_least_half(#[trigger] row[a]) implies after.contains(
            (d, a as usize),
        ) by {
            if a < n - 1 {
                let k = choose|k: int| 0 <= k < before.len() && before[k] == (d, a as usize);
                assert(after[k] == (d, a as usize));
            } else {
                assert(after[before.len() as int] == (d, a as usize));
            }
        }
    }
}

/// The candidates are the pairs in the table that are similar enough.
pub proof fn lemma_candidates(rows: Seq<Seq<RatioView>>, n: int)
    requires
        0 <= n <= rows.len() <= usize::MAX,
        forall|d: int| 0 <= d < rows.len() ==> (#[trigger] rows[d]).len() <= usize::MAX,
    ensures
        forall|p: (usize, usize)|
            #![trigger candidates(rows, n).contains(p)]
            candidates(rows, n).contains(p) <==> is_candidate(rows, p) && p.0 < n,
    decreases n,
{
    if n > 0 {
        let d = (n - 1) as usize;
        let before = candidates(rows, n - 1);
        let row = row_candidates(rows[n - 1], d, rows[n - 1].len() as int);
        let after = candidates(rows, n);
        lemma_candidates(rows, n - 1);
        lemma_row_candidates(rows[n - 1], d, rows[n - 1].len() as int);
        assert forall|p: (usize, usize)|
            #![trigger after.contains(p)]
            after.contains(p) <==> is_candidate(rows, p) && p.0 < n by {
            if after.contains(p) {
                let k = choose|k: int| 0 <= k < after.len() && after[k] == p;
                if k < before.len() {
                    assert(before[k] == p);
                    assert(before.contains(p));
                } else {
                    assert(row[k - before.len()] == p);
                }
            }
            if is_candidate(rows, p) && p.0 < n {
                if p.0 < n - 1 {
                    assert(before.contains(p));
                    let k = choose|k: int| 0 <= k < before.len() && before[k] == p;
                    assert(after[k] == p);
                } else {
                    assert(at_least_half(rows[n - 1][p.1 as int]));
                    assert(row.contains(p));
                    let k = choose|k: int| 0 <= k < row.len() && row[k] == p;
                    assert(after[k + before.len()] == p);
                }
            }
        }
    }
}

/// Collects the pairs that are similar enough.
fn collect_candidates(ratios: &Vec<Vec<SimilarityRatio>>) -> (r: Vec<(usize, usize)>)
    ensures
        r@ == candidates(ratio_rows(ratios@), ratios@.len() as int),
        in_table(ratios@, r@),
{
    let ghost rows = ratio_rows(ratios@);
    let mut found: Vec<(usize, usize)> = Vec::new();
    let mut d: usize = 0;
    while d < ratios.len()
        invariant
            d <= ratios@.len(),
            rows == ratio_rows(ratios@),
            found@ == candidates(rows, d as int),
            in_table(ratios@, found@),
        decreases ratios@.len() - d,
    {
        let row = &ratios[d];
        let ghost before = found@;
        let mut a: usize = 0;
        assert(found@ =~= before + row_candidates(rows[d as int], d, 0));
        while a < row.len()
            invariant
                d < ratios@.len(),
                a <= row@.len(),
                row@ == ratios@[d as int]@,
                rows == ratio_rows(ratios@),
                found@ == before + row_candidates(rows[d as int], d, a as int),
                in_table(ratios@, found@),
            decreases row@.len() - a,
        {
            assert(rows[d as int][a as int] == row@[a as int]@);
            let ghost so_far = row_candidates(rows[d as int], d, a as int);
            if row[a].is_at_least_half() {
                found.push((d, a));
                assert(found@ =~= before + so_far.push((d, a)));
            }
            a = a + 1;
        }
        d = d + 1;
    }
    found
}

/// Takes the pairs in order whose lines are both still free, out of `n_del` and `n_add` lines.
fn take_free(order: &Vec<(usize, usize)>, n_del: usize, n_add: usize) -> (r: Vec<(usize, usize)>)
    requires
        forall|k: int|
            0 <= k < order@.len() ==> (#[trigger] order@[k]).0 < n_del && order@[k].1 < n_add,
    ensures
        r@ == greedy(order@),
{
    let mut paired_d: Vec<bool> = vec![false; n_del];
    let mut paired_a: Vec<bool> = vec![false; n_add];
    let mut taken: Vec<(usize, usize)> = Vec::new();
    let mut k: usize = 0;
    assert(order@.take(0) =~= Seq::<(usize, usize)>::empty());
    while k < order.len()
        invariant
            k <= order@.len(),
            forall|k: int|
                0 <= k < order@.len() ==> (#[trigger] order@[k]).0 < n_del && order@[k].1 < n_add,
            paired_d@.len() == n_del,
            paired_a@.len() == n_add,
            taken@ == greedy(order@.take(k as int)),
            forall|d: int|
                0 <= d < n_del ==> #[trigger] paired_d@[d] == exists|i: int|
                    0 <= i < taken@.len() && (#[trigger] taken@[i]).0 == d,
            forall|a: int|
                0 <= a < n_add ==> #[trigger] paired_a@[a] == exists|i: int|
                    0 <= i < taken@.len() && (#[trigger] taken@[i]).1 == a,
        decreases order@.len() - k,
    {
        let (d, a) = order[k];
        let ghost before = taken@;
        proof {
            assert(order@.take(k + 1).drop_last() =~= order@.take(k as int));
            assert(order@.take(k + 1).last() == order@[k as int]);
            assert(clashes(before, (d, a)) == (paired_d@[d as int] || paired_a@[a as int])) by {
                if clashes(before, (d, a)) {
                    let i = choose|i: int|
                        0 <= i < before.len() && clash(#[trigger] before[i], (d, a));
                    assert(before[i].0 == d || before[i].1 == a);
                }
                if paired_d@[d as int] {
                    let i = choose|i: int| 0 <= i < taken@.len() && (#[trigger] taken@[i]).0 == d;
                    assert(clash(before[i], (d, a)));
                }
                if paired_a@[a as int] {
                    let i = choose|i: int| 0 <= i < taken@.len() && (#[trigger] taken@[i]).1 == a;
                    assert(clash(before[i], (d, a)));
                }
            }
        }
        if !paired_d[d] && !paired_a[a] {
            let ghost old_d = paired_d@;
            let ghost old_a = paired_a@;
            taken.push((d, a));
            paired_d.set(d, true);
            paired_a.set(a, true);
            proof {
                assert forall|x: int| 0 <= x < n_del implies #[trigger] paired_d@[x] == exists|i: int|
                    0 <= i < taken@.len() && (#[trigger] taken@[i]).0 == x by {
                    if x == d {
                        assert(taken@[before.len() as int].0 == x);
                    } else {
                        assert(paired_d@[x] == old_d[x]);
                        if old_d[x] {
                            let i = choose|i: int|
                                0 <= i < before.len() && (#[trigger] before[i]).0 == x;
                            assert(taken@[i].0 == x);
                        } else {
                            assert forall|i: int| 0 <= i < taken@.len() implies (
                            #[trigger] taken@[i]).0 != x by {
                                if i < before.len() {
                                    assert(before[i].0 != x);
                                }
                            }
                        }
                    }
                }
                assert forall|x: int| 0 <= x < n_add implies #[trigger] paired_a@[x] == exists|i: int|
                    0 <= i < taken@.len() && (#[trigger] taken@[i]).1 == x by {
                    if x == a {
                        assert(taken@[before.len() as int].1 == x);
                    } else {
                        assert(paired_a@[x] == old_a[x]);
                        if old_a[x] {
                            let i = choose|i: int|
                                0 <= i < before.len() && (#[trigger] before[i]).1 == x;
                            assert(taken@[i].1 == x);
                        } else {
                            assert forall|i: int| 0 <= i < taken@.len() implies (
                            #[trigger] taken@[i]).1 != x by {
                                if i < before.len() {
                                    assert(before[i].1 != x);
                                }
                            }
                        }
                    }
                }
            }
        }
        k = k + 1;
    }
    assert(order@.take(k as int) =~= order@);
    taken
}

/// Pairs lines by similarity: of the pairs that are at least half alike, the best first, each line
/// in one pair at most. `ratios` has a row for each deleted line with an entry for each of the
/// `n_add` added lines.
pub fn pair_by_similarity(ratios: &Vec<Vec<SimilarityRatio>>, n_add: usize) -> (r: Vec<
    (usize, usize),
>)
    requires
        rectangular(ratio_rows(ratios@), n_add as int),
    ensures
        r@ == best_pairs(ratio_rows(ratios@)),
{
    let ghost rows = ratio_rows(ratios@);
    let found: Vec<(usize, usize)> = collect_candidates(ratios);
    let ghost all = found@;
    let order: Vec<(usize, usize)> = sort_ranked(ratios, found);
    proof {
        reveal(best_pairs);
        lemma_ranking_total(rows);
        all.lemma_sort_by_ensures(ranking(rows));
        lemma_sorted_unique(order@, all.sort_by(ranking(rows)), ranking(rows));
        assert forall|k: int| 0 <= k < order@.len() implies (#[trigger] order@[k]).0 < ratios@.len()
            && order@[k].1 < n_add by {
            assert(rows[order@[k].0 as int].len() == n_add);
        }
    }
    take_free(&order, ratios.len(), n_add)
}

/// Every pair that is taken is one of those that were tried.
proof fn lemma_greedy_from(order: Seq<(usize, usize)>, k: int) -> (i: int)
    requires
        0 <= k < greedy(order).len(),
    ensures
        0 <= i < order.len(),
        order[i] == greedy(order)[k],
    decreases order.len(),
{
    let rest = order.drop_last();
    if k < greedy(rest).len() {
        lemma_greedy_from(rest, k)
    } else {
        order.len() - 1
    }
}

/// Pairs that are taken have no line in common.
proof fn lemma_greedy_apart(order: Seq<(usize, usize)>)
    ensures
        forall|i: int, j: int|
            0 <= i < j < greedy(order).len() ==> !clash(
                #[trigger] greedy(order)[i],
                #[trigger] greedy(order)[j],
            ),
    decreases order.len(),
{
    if order.len() > 0 {
        let before = greedy(order.drop_last());
        let taken = greedy(order);
        lemma_greedy_apart(order.drop_last());
        assert forall|i: int, j: int| 0 <= i < j < taken.len() implies !clash(
            #[trigger] taken[i],
            #[trigger] taken[j],
        ) by {
            assert(taken[i] == before[i]);
            if j < before.len() {
                assert(taken[j] == before[j]);
            } else {
                assert(!clash(before[i], order.last()));
            }
        }
    }
}

/// Every pair that was tried in ranking order has a line in common with one that was taken and is
/// no worse.
proof fn lemma_greedy_no_worse(
    order: Seq<(usize, usize)>,
    leq: spec_fn((usize, usize), (usize, usize)) -> bool,
    i: int,
) -> (k: int)
    requires
        forall|p: (usize, usize)| #[trigger] leq(p, p),
        sorted_by(order, leq),
        0 <= i < order.len(),
    ensures
        0 <= k < greedy(order).len(),
        clash(greedy(order)[k], order[i]),
        leq(greedy(order)[k], order[i]),
    decreases order.len(),
{
    let rest = order.drop_last();
    let last = order.last();
    let before = greedy(rest);
    if i < rest.len() {
        assert forall|x: int, y: int| 0 <= x < y < rest.len() implies #[trigger] leq(
            rest[x],
            rest[y],
        ) by {
            assert(leq(order[x], order[y]));
        }
        let k = lemma_greedy_no_worse(rest, leq, i);
        assert(greedy(order)[k] == before[k]);
        k
    } else if clashes(before, last) {
        let k = choose|k: int| 0 <= k < before.len() && clash(#[trigger] before[k], last);
        let m = lemma_greedy_from(rest, k);
        assert(leq(order[m], order[i]));
        k
    } else {
        assert(leq(last, last));
        before.len() as int
    }
}

/// The candidates in the order in which they are tried are the same pairs.
proof fn lemma_order(rows: Seq<Seq<RatioView>>) -> (order: Seq<(usize, usize)>)
    requires
        rows.len() <= usize::MAX,
        forall|d: int| 0 <= d < rows.len() ==> (#[trigger] rows[d]).len() <= usize::MAX,
    ensures
        best_pairs(rows) == greedy(order),
        sorted_by(order, ranking(rows)),
        forall|p: (usize, usize)| #[trigger] order.contains(p) <==> is_candidate(rows, p),
{
    reveal(best_pairs);
    let leq = ranking(rows);
    let all = candidates(rows, rows.len() as int);
    let order = all.sort_by(leq);
    lemma_ranking_total(rows);
    all.lemma_sort_by_ensures(leq);
    lemma_candidates(rows, rows.len() as int);
    broadcast use group_to_multiset_ensures;

    assert forall|p: (usize, usize)| #[trigger] order.contains(p) <==> is_candidate(rows, p) by {
        assert(all.contains(p) <==> all.to_multiset().count(p) > 0);
        assert(order.contains(p) <==> order.to_multiset().count(p) > 0);
        assert(all.contains(p) <==> is_candidate(rows, p) && p.0 < rows.len());
    }
    order
}

/// The pairs of similar lines have no line in common and are all similar enough.
pub proof fn law_best_pairs(rows: Seq<Seq<RatioView>>)
    requires
        rows.len() <= usize::MAX,
        forall|d: int| 0 <= d < rows.len() ==> (#[trigger] rows[d]).len() <= usize::MAX,
    ensures
        forall|i: int, j: int|
            0 <= i < j < best_pairs(rows).len() ==> !clash(
                #[trigger] best_pairs(rows)[i],
                #[trigger] best_pairs(rows)[j],
            ),
        forall|k: int|
            0 <= k < best_pairs(rows).len() ==> is_candidate(rows, #[trigger] best_pairs(rows)[k]),
{
    let order = lemma_order(rows);
    lemma_greedy_apart(order);
    assert forall|k: int| 0 <= k < best_pairs(rows).len() implies is_candidate(
        rows,
        #[trigger] best_pairs(rows)[k],
    ) by {
        let i = lemma_greedy_from(order, k);
        assert(order.contains(order[i]));
    }
}

/// Every pair of lines that is similar enough has a line in common with one of the pairs that are
/// made, and that one is no worse: no two lines are left that would both be better off together.
pub proof fn law_best_pairs_stable(rows: Seq<Seq<RatioView>>, p: (usize, usize))
    requires
        rows.len() <= usize::MAX,
        forall|d: int| 0 <= d < rows.len() ==> (#[trigger] rows[d]).len() <= usize::MAX,
        is_candidate(rows, p),
    ensures
        exists|k: int|
            0 <= k < best_pairs(rows).len() && clash(#[trigger] best_pairs(rows)[k], p) && ranks(
                rows,
                best_pairs(rows)[k],
                p,
            ),
{
    let leq = ranking(rows);
    let order = lemma_order(rows);
    lemma_ranking_total(rows);
    assert(order.contains(p));
    let i = choose|i: int| 0 <= i < order.len() && order[i] == p;
    let k = lemma_greedy_no_worse(order, leq, i);
    assert(clash(best_pairs(rows)[k], p));
}

/// A table of ratios has what the ratios have.
pub proof fn law_ratio_rows(ratios: Seq<Vec<SimilarityRatio>>, d: int, a: int)
    requires
        0 <= d < ratios.len(),
        0 <= a < ratios[d]@.len(),
    ensures
        ratio_rows(ratios).len() == ratios.len(),
        ratio_rows(ratios)[d].len() == ratios[d]@.len(),
        ratio_rows(ratios)[d][a].equal == ratios[d]@[a].equal,
        ratio_rows(ratios)[d][a].old_len == ratios[d]@[a].old_len,
        ratio_rows(ratios)[d][a].new_len == ratios[d]@[a].new_len,
{
}

/// Pairs are taken the more similar first, and of those that are as similar the one that stands
/// first, by the deleted line and then by the added one.
proof fn lemma_ranks(rows: Seq<Seq<RatioView>>, p: (usize, usize), q: (usize, usize))
    ensures
        ranks(rows, p, q) <==> {
            let r = rows[p.0 as int][p.1 as int];
            let s = rows[q.0 as int][q.1 as int];
            above(r, s) || !above(s, r) && (p.0 < q.0 || p.0 == q.0 && p.1 <= q.1)
        },
{
    let r = rows[p.0 as int][p.1 as int];
    let s = rows[q.0 as int][q.1 as int];
    assert(ratio_at(rows, p) == r);
    assert(ratio_at(rows, q) == s);
}

/// The pairs that are made are of lines that are at least half the same, no line is in two of them,
/// and they come in order: the more similar first, and of those that are as similar the one that
/// stands first.
pub proof fn law_pairs_made(rows: Seq<Seq<RatioView>>)
    requires
        rows.len() <= usize::MAX,
        forall|d: int| 0 <= d < rows.len() ==> (#[trigger] rows[d]).len() <= usize::MAX,
    ensures
        forall|k: int|
            0 <= k < best_pairs(rows).len() ==> ({
                let p = #[trigger] best_pairs(rows)[k];
                let r = rows[p.0 as int][p.1 as int];
                &&& p.0 < rows.len()
                &&& p.1 < rows[p.0 as int].len()
                &&& 4 * r.equal >= r.old_len + r.new_len
            }),
        forall|i: int, j: int|
            0 <= i < j < best_pairs(rows).len() ==> ({
                let p = #[trigger] best_pairs(rows)[i];
                let q = #[trigger] best_pairs(rows)[j];
                let r = rows[p.0 as int][p.1 as int];
                let s = rows[q.0 as int][q.1 as int];
                &&& p.0 != q.0
                &&& p.1 != q.1
                &&& !above(s, r)
                &&& above(r, s) || p.0 < q.0
            }),
{
    let best = best_pairs(rows);
    let order = lemma_order(rows);
    law_best_pairs(rows);
    assert forall|k: int| 0 <= k < best.len() implies ({
        let p = #[trigger] best[k];
        let r = rows[p.0 as int][p.1 as int];
        &&& p.0 < rows.len()
        &&& p.1 < rows[p.0 as int].len()
        &&& 4 * r.equal >= r.old_len + r.new_len
    }) by {
        let p = best[k];
        assert(is_candidate(rows, p));
        assert(ratio_at(rows, p) == rows[p.0 as int][p.1 as int]);
        law_at_least_half(rows[p.0 as int][p.1 as int]);
    }
    assert forall|i: int, j: int| 0 <= i < j < best.len() implies ({
        let p = #[trigger] best[i];
        let q = #[trigger] best[j];
        let r = rows[p.0 as int][p.1 as int];
        let s = rows[q.0 as int][q.1 as int];
        &&& p.0 != q.0
        &&& p.1 != q.1
        &&& !above(s, r)
        &&& above(r, s) || p.0 < q.0
    }) by {
        let p = best[i];
        let q = best[j];
        assert(!clash(p, q));
        lemma_greedy_in_order(order, ranking(rows), i, j);
        lemma_ranks(rows, p, q);
        lemma_above_asymmetric(rows[p.0 as int][p.1 as int], rows[q.0 as int][q.1 as int]);
    }
}

/// No ratio is greater than one that is greater than it.
proof fn lemma_above_asymmetric(r: RatioView, s: RatioView)
    ensures
        !(above(r, s) && above(s, r)),
{
}

/// Pairs are taken in the order in which they are tried.
proof fn lemma_greedy_in_order(
    order: Seq<(usize, usize)>,
    leq: spec_fn((usize, usize), (usize, usize)) -> bool,
    i: int,
    j: int,
)
    requires
        sorted_by(order, leq),
        0 <= i < j < greedy(order).len(),
    ensures
        leq(greedy(order)[i], greedy(order)[j]),
    decreases order.len(),
{
    let rest = order.drop_last();
    let before = greedy(rest);
    if j < before.len() {
        assert forall|x: int, y: int| 0 <= x < y < rest.len() implies #[trigger] leq(
            rest[x],
            rest[y],
        ) by {
            assert(leq(order[x], order[y]));
        }
        lemma_greedy_in_order(rest, leq, i, j);
    } else {
        let m = lemma_greedy_from(rest, i);
        assert(order[m] == before[i]);
        assert(leq(order[m], order[order.len() - 1]));
    }
}

/// Two lines that are at least half the same are paired, or one of them is in a pair of lines that
/// are more similar, or as similar and stand before them.
pub proof fn law_pairs_owed(rows: Seq<Seq<RatioView>>, d: usize, a: usize)
    requires
        rows.len() <= usize::MAX,
        forall|x: int| 0 <= x < rows.len() ==> (#[trigger] rows[x]).len() <= usize::MAX,
        d < rows.len(),
        a < rows[d as int].len(),
        4 * rows[d as int][a as int].equal >= rows[d as int][a as int].old_len
            + rows[d as int][a as int].new_len,
    ensures
        exists|k: int|
            0 <= k < best_pairs(rows).len() && ({
                let p = #[trigger] best_pairs(rows)[k];
                let r = rows[p.0 as int][p.1 as int];
                let s = rows[d as int][a as int];
                &&& p.0 == d || p.1 == a
                &&& above(r, s) || !above(s, r) && (p.0 < d || p.0 == d && p.1 <= a)
            }),
{
    law_at_least_half(rows[d as int][a as int]);
    assert(ratio_at(rows, (d, a)) == rows[d as int][a as int]);
    law_best_pairs_stable(rows, (d, a));
    let k = choose|k: int|
        0 <= k < best_pairs(rows).len() && clash(#[trigger] best_pairs(rows)[k], (d, a)) && ranks(
            rows,
            best_pairs(rows)[k],
            (d, a),
        );
    lemma_ranks(rows, best_pairs(rows)[k], (d, a));
    let p = best_pairs(rows)[k];
    assert(p.0 == d || p.1 == a);
}

} // verus!
