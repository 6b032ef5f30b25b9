//! Word-level highlights for the lines of a hunk.
use crate::highlight::{compute_pair_highlights, highlight_pair, pair_compared, pair_ranges};
use crate::line::{
    comparable, line_views, ranges_in, DiffLine, DiffLineType, LineView, MAX_LINE_CHARS,
};
use crate::pairing::{
    best_pairs, clash, is_candidate, law_best_pairs, law_pairs_made, law_pairs_owed,
    pair_by_similarity, ratio_rows,
};
use crate::similarity::{
    above, calculate_similarity_ratio, similarity, RatioView, SimilarityRatio,
};
use vstd::prelude::*;

verus! {

/// The end of the run of lines of type `t` that starts at `i`, which is `i` if the line there is of
/// another type.
pub open spec fn run_end(lines: Seq<LineView>, i: int, t: DiffLineType) -> int
    decreases lines.len() - i,
{
    if 0 <= i < lines.len() && lines[i].line_type == t {
        run_end(lines, i + 1, t)
    } else {
        i
    }
}

/// The similarity of each of the lines `del_start..add_start` to each of the lines
/// `add_start..end`.
pub open spec fn similarity_rows(
    lines: Seq<LineView>,
    del_start: int,
    add_start: int,
    end: int,
) -> Seq<Seq<RatioView>> {
    Seq::new(
        (add_start - del_start) as nat,
        |d: int|
            Seq::new(
                (end - add_start) as nat,
                |a: int|
                    similarity(lines[del_start + d].content, lines[add_start + a].content),
            ),
    )
}

/// The pairs of the deleted lines `del_start..add_start` with the added lines `add_start..end`: one
/// by one if there are as many of both, by similarity if not.
pub open spec fn group_pairs(
    lines: Seq<LineView>,
    del_start: int,
    add_start: int,
    end: int,
) -> Seq<(int, int)> {
    if add_start - del_start == end - add_start {
        Seq::new((add_start - del_start) as nat, |k: int| (del_start + k, add_start + k))
    } else {
        let best = best_pairs(similarity_rows(lines, del_start, add_start, end));
        Seq::new(best.len(), |k: int| (del_start + best[k].0, add_start + best[k].1))
    }
}

/// The pairs among the lines from `i` on: those of every run of deleted lines with the run of added
/// lines right after it.
pub open spec fn pairs_from(lines: Seq<LineView>, i: int) -> Seq<(int, int)>
    decreases lines.len() - i,
{
    if i < 0 || i >= lines.len() {
        Seq::empty()
    } else if lines[i].line_type != DiffLineType::Delete {
        pairs_from(lines, i + 1)
    } else {
        let add_start = run_end(lines, i, DiffLineType::Delete);
        let end = run_end(lines, add_start, DiffLineType::Add);
        proof {
            lemma_run_end(lines, i, DiffLineType::Delete);
            lemma_run_end(lines, add_start, DiffLineType::Add);
        }
        group_pairs(lines, i, add_start, end) + pairs_from(lines, end)
    }
}

/// The lines with each of the pairs highlighted.
pub open spec fn highlighted(lines: Seq<LineView>, pairs: Seq<(int, int)>) -> Seq<LineView>
    decreases pairs.len(),
{
    if pairs.len() == 0 {
        lines
    } else {
        highlight_pair(highlighted(lines, pairs.drop_last()), pairs.last().0, pairs.last().1)
    }
}

/// The lines of a hunk with their word-level highlights.
pub open spec fn with_highlights(lines: Seq<LineView>) -> Seq<LineView> {
    highlighted(lines, pairs_from(lines, 0))
}

/// Whether two lists of lines differ at most in their highlights.
pub open spec fn same_text(a: Seq<LineView>, b: Seq<LineView>) -> bool {
    &&& a.len() == b.len()
    &&& forall|i: int|
        0 <= i < a.len() ==> {
            &&& (#[trigger] a[i]).content == b[i].content
            &&& a[i].line_type == b[i].line_type
            &&& a[i].position == b[i].position
        }
}

/// A run starts where it is looked for, and holds lines of its type up to one that is not.
pub proof fn lemma_run_end(lines: Seq<LineView>, i: int, t: DiffLineType)
    requires
        0 <= i <= lines.len(),
    ensures
        i <= run_end(lines, i, t) <= lines.len(),
        forall|k: int| i <= k < run_end(lines, i, t) ==> (#[trigger] lines[k]).line_type == t,
        run_end(lines, i, t) < lines.len() ==> lines[run_end(lines, i, t)].line_type != t,
        i < lines.len() && lines[i].line_type == t ==> i < run_end(lines, i, t),
    decreases lines.len() - i,
{
    if i < lines.len() && lines[i].line_type == t {
        lemma_run_end(lines, i + 1, t);
    }
}

/// Whether the pairs are of lines out of `n`.
pub open spec fn pairs_within(pairs: Seq<(int, int)>, n: int) -> bool {
    forall|k: int|
        0 <= k < pairs.len() ==> 0 <= (#[trigger] pairs[k]).0 < n && 0 <= pairs[k].1 < n
}

/// Highlighting changes nothing but highlights.
pub proof fn law_highlighting_keeps_text(lines: Seq<LineView>, pairs: Seq<(int, int)>)
    requires
        pairs_within(pairs, lines.len() as int),
    ensures
        same_text(lines, highlighted(lines, pairs)),
    decreases pairs.len(),
{
    if pairs.len() > 0 {
        assert forall|k: int| 0 <= k < pairs.drop_last().len() implies 0 <= (
        #[trigger] pairs.drop_last()[k]).0 < lines.len() && 0 <= pairs.drop_last()[k].1
            < lines.len() by {
            assert(pairs.drop_last()[k] == pairs[k]);
        }
        assert(pairs.last() == pairs[pairs.len() - 1]);
        law_highlighting_keeps_text(lines, pairs.drop_last());
        let before = highlighted(lines, pairs.drop_last());
        let (d, a) = pairs.last();
        let after = highlight_pair(before, d, a);
        assert forall|i: int| 0 <= i < lines.len() implies {
            &&& (#[trigger] lines[i]).content == after[i].content
            &&& lines[i].line_type == after[i].line_type
            &&& lines[i].position == after[i].position
        } by {
            assert(lines[i].content == before[i].content);
        }
    }
}

/// Highlighting one list of pairs after another is highlighting both.
proof fn lemma_highlighted_concat(
    lines: Seq<LineView>,
    first: Seq<(int, int)>,
    second: Seq<(int, int)>,
)
    ensures
        highlighted(lines, first + second) == highlighted(highlighted(lines, first), second),
    decreases second.len(),
{
    if second.len() == 0 {
        assert(first + second =~= first);
    } else {
        assert((first + second).drop_last() =~= first + second.drop_last());
        lemma_highlighted_concat(lines, first, second.drop_last());
    }
}

/// What the pairs are does not depend on the highlights.
proof fn lemma_pairs_same_text(a: Seq<LineView>, b: Seq<LineView>, s: int, m: int, e: int)
    requires
        same_text(a, b),
        0 <= s <= m <= e <= a.len(),
    ensures
        group_pairs(a, s, m, e) == group_pairs(b, s, m, e),
        similarity_rows(a, s, m, e) == similarity_rows(b, s, m, e),
{
    let x = similarity_rows(a, s, m, e);
    let y = similarity_rows(b, s, m, e);
    assert forall|d: int| 0 <= d < x.len() implies #[trigger] x[d] == y[d] by {
        assert forall|k: int| 0 <= k < x[d].len() implies #[trigger] x[d][k] == y[d][k] by {
            assert(a[s + d].content == b[s + d].content);
            assert(a[m + k].content == b[m + k].content);
        }
        assert(x[d] =~= y[d]);
    }
    assert(x =~= y);
    assert(group_pairs(a, s, m, e) =~= group_pairs(b, s, m, e));
}

/// The pairs of a group are of one of its deleted lines with one of its added lines, and no line
/// is in two of them.
proof fn lemma_group_pairs(lines: Seq<LineView>, s: int, m: int, e: int)
    requires
        0 <= s <= m <= e <= lines.len() <= usize::MAX,
    ensures
        forall|k: int|
            0 <= k < group_pairs(lines, s, m, e).len() ==> s <= (#[trigger] group_pairs(
                lines,
                s,
                m,
                e,
            )[k]).0 < m && m <= group_pairs(lines, s, m, e)[k].1 < e,
        forall|i: int, j: int|
            0 <= i < j < group_pairs(lines, s, m, e).len() ==> (#[trigger] group_pairs(
                lines,
                s,
                m,
                e,
            )[i]).0 != (#[trigger] group_pairs(lines, s, m, e)[j]).0 && group_pairs(
                lines,
                s,
                m,
                e,
            )[i].1 != group_pairs(lines, s, m, e)[j].1,
{
    let pairs = group_pairs(lines, s, m, e);
    if m - s != e - m {
        let rows = similarity_rows(lines, s, m, e);
        let best = best_pairs(rows);
        law_best_pairs(rows);
        assert forall|k: int| 0 <= k < pairs.len() implies s <= (#[trigger] pairs[k]).0 < m && m
            <= pairs[k].1 < e by {
            assert(is_candidate(rows, best[k]));
        }
        assert forall|i: int, j: int| 0 <= i < j < pairs.len() implies (#[trigger] pairs[i]).0 != (
        #[trigger] pairs[j]).0 && pairs[i].1 != pairs[j].1 by {
            assert(!clash(best[i], best[j]));
        }
    }
}

/// Every pair is of a deleted line with an added line after it, and no line is in two pairs.
pub proof fn law_pairs(lines: Seq<LineView>, from: int)
    requires
        0 <= from <= lines.len() <= usize::MAX,
    ensures
        forall|k: int|
            0 <= k < pairs_from(lines, from).len() ==> {
                let p = #[trigger] pairs_from(lines, from)[k];
                &&& from <= p.0 < p.1 < lines.len()
                &&& lines[p.0].line_type == DiffLineType::Delete
                &&& lines[p.1].line_type == DiffLineType::Add
            },
        forall|i: int, j: int|
            0 <= i < j < pairs_from(lines, from).len() ==> {
                &&& (#[trigger] pairs_from(lines, from)[i]).0 != (#[trigger] pairs_from(
                    lines,
                    from,
                )[j]).0
                &&& pairs_from(lines, from)[i].1 != pairs_from(lines, from)[j].1
            },
    decreases lines.len() - from,
{
    if from < lines.len() {
        if lines[from].line_type != DiffLineType::Delete {
            law_pairs(lines, from + 1);
        } else {
            let m = run_end(lines, from, DiffLineType::Delete);
            let e = run_end(lines, m, DiffLineType::Add);
            lemma_run_end(lines, from, DiffLineType::Delete);
            lemma_run_end(lines, m, DiffLineType::Add);
            lemma_group_pairs(lines, from, m, e);
            law_pairs(lines, e);
            let group = group_pairs(lines, from, m, e);
            let rest = pairs_from(lines, e);
            let all = pairs_from(lines, from);
            assert(all == group + rest);
            assert forall|k: int| 0 <= k < all.len() implies {
                let p = #[trigger] all[k];
                &&& from <= p.0 < p.1 < lines.len()
                &&& lines[p.0].line_type == DiffLineType::Delete
                &&& lines[p.1].line_type == DiffLineType::Add
            } by {
                if k < group.len() {
                    assert(all[k] == group[k]);
                } else {
                    assert(all[k] == rest[k - group.len()]);
                }
            }
            assert forall|i: int, j: int| 0 <= i < j < all.len() implies {
                &&& (#[trigger] all[i]).0 != (#[trigger] all[j]).0
                &&& all[i].1 != all[j].1
            } by {
                if j < group.len() {
                    assert(all[i] == group[i] && all[j] == group[j]);
                } else if i < group.len() {
                    assert(all[i] == group[i] && all[j] == rest[j - group.len()]);
                } else {
                    assert(all[i] == rest[i - group.len()] && all[j] == rest[j - group.len()]);
                }
            }
        }
    }
}

/// Where the run of lines of type `t` that starts at `i` ends.
fn find_run_end(lines: &[DiffLine], i: usize, t: DiffLineType) -> (r: usize)
    requires
        i <= lines@.len(),
    ensures
        r == run_end(line_views(lines@), i as int, t),
        i <= r <= lines@.len(),
{
    let ghost views = line_views(lines@);
    let mut k: usize = i;
    while k < lines.len() && lines[k].line_type == t
        invariant
            i <= k <= lines@.len(),
            views == line_views(lines@),
            run_end(views, k as int, t) == run_end(views, i as int, t),
        decreases lines@.len() - k,
    {
        assert(views[k as int] == lines@[k as int]@);
        k = k + 1;
    }
    assert(k < lines@.len() ==> views[k as int] == lines@[k as int]@);
    k
}

/// The similarity of each of the lines `del_start..add_start` to each of the lines
/// `add_start..end`.
fn rate_lines(lines: &[DiffLine], del_start: usize, add_start: usize, end: usize) -> (r: Vec<
    Vec<SimilarityRatio>,
>)
    requires
        del_start <= add_start <= end <= lines@.len(),
        comparable(line_views(lines@)),
    ensures
        ratio_rows(r@) == similarity_rows(
            line_views(lines@),
            del_start as int,
            add_start as int,
            end as int,
        ),
{
    let ghost views = line_views(lines@);
    let ghost rows = similarity_rows(views, del_start as int, add_start as int, end as int);
    let mut table: Vec<Vec<SimilarityRatio>> = Vec::new();
    let mut d: usize = del_start;
    while d < add_start
        invariant
            del_start <= d <= add_start <= end <= lines@.len(),
            views == line_views(lines@),
            comparable(views),
            rows == similarity_rows(views, del_start as int, add_start as int, end as int),
            table@.len() == d - del_start,
            forall|x: int|
                0 <= x < table@.len() ==> (#[trigger] table@[x])@.len() == end - add_start,
            forall|x: int, y: int|
                0 <= x < table@.len() && 0 <= y < end - add_start ==> (#[trigger] table@[x]@[y])@
                    == rows[x][y],
        decreases add_start - d,
    {
        let mut row: Vec<SimilarityRatio> = Vec::new();
        let mut a: usize = add_start;
        while a < end
            invariant
                del_start <= d < add_start <= a <= end <= lines@.len(),
                views == line_views(lines@),
                comparable(views),
                rows == similarity_rows(views, del_start as int, add_start as int, end as int),
                row@.len() == a - add_start,
                forall|y: int|
                    0 <= y < row@.len() ==> (#[trigger] row@[y])@ == rows[d - del_start][y],
            decreases end - a,
        {
            assert(views[d as int] == lines@[d as int]@);
            assert(views[a as int] == lines@[a as int]@);
            let ratio = calculate_similarity_ratio(&lines[d].content, &lines[a].content);
            assert(rows[d - del_start][a - add_start] == similarity(
                views[d as int].content,
                views[a as int].content,
            ));
            row.push(ratio);
            a = a + 1;
        }
        table.push(row);
        d = d + 1;
    }
    proof {
        let result = ratio_rows(table@);
        assert forall|x: int| 0 <= x < result.len() implies #[trigger] result[x] == rows[x] by {
            assert forall|y: int| 0 <= y < result[x].len() implies #[trigger] result[x][y]
                == rows[x][y] by {
                assert(table@[x]@[y]@ == rows[x][y]);
            }
            assert(result[x] =~= rows[x]);
        }
        assert(result =~= rows);
    }
    table
}

/// Pairs the deleted lines `del_start..add_start` with the added lines `add_start..end` and
/// highlights each pair.
fn highlight_group(lines: &mut [DiffLine], del_start: usize, add_start: usize, end: usize)
    requires
        del_start <= add_start <= end <= old(lines)@.len(),
        comparable(line_views(old(lines)@)),
    ensures
        final(lines)@.len() == old(lines)@.len(),
        line_views(final(lines)@) == highlighted(
            line_views(old(lines)@),
            group_pairs(
                line_views(old(lines)@),
                del_start as int,
                add_start as int,
                end as int,
            ),
        ),
        highlights_in_place(line_views(old(lines)@), line_views(final(lines)@)),
        pairs_compared(
            line_views(old(lines)@),
            group_pairs(
                line_views(old(lines)@),
                del_start as int,
                add_start as int,
                end as int,
            ),
        ),
{
    let ghost views = line_views(lines@);
    let n: usize = lines.len();
    let n_del: usize = add_start - del_start;
    let n_add: usize = end - add_start;
    let ghost pairs = group_pairs(views, del_start as int, add_start as int, end as int);
    let mut chosen: Vec<(usize, usize)> = Vec::new();
    if n_del == n_add {
        let mut k: usize = 0;
        while k < n_del
            invariant
                k <= n_del,
                chosen@.len() == k,
                forall|x: int| 0 <= x < k ==> #[trigger] chosen@[x] == (x as usize, x as usize),
            decreases n_del - k,
        {
            chosen.push((k, k));
            k = k + 1;
        }
    } else {
        let ratios: Vec<Vec<SimilarityRatio>> = rate_lines(lines, del_start, add_start, end);
        chosen = pair_by_similarity(&ratios, n_add);
        proof {
            law_best_pairs(ratio_rows(ratios@));
            assert forall|x: int| 0 <= x < chosen@.len() implies (#[trigger] chosen@[x]).0 < n_del
                && chosen@[x].1 < n_add by {
                assert(is_candidate(ratio_rows(ratios@), best_pairs(ratio_rows(ratios@))[x]));
            }
        }
    }
    let mut k: usize = 0;
    proof {
        assert(pairs.take(0) =~= Seq::<(int, int)>::empty());
        lemma_group_pairs(views, del_start as int, add_start as int, end as int);
    }
    while k < chosen.len()
        invariant
            k <= chosen@.len(),
            del_start + n_del == add_start,
            add_start + n_add == end,
            end <= lines@.len(),
            lines@.len() == views.len(),
            comparable(views),
            pairs_within(pairs, views.len() as int),
            pairs.len() == chosen@.len(),
            forall|x: int|
                0 <= x < chosen@.len() ==> (#[trigger] chosen@[x]).0 < n_del && chosen@[x].1
                    < n_add && pairs[x] == (del_start + chosen@[x].0, add_start + chosen@[x].1),
            line_views(lines@) == highlighted(views, pairs.take(k as int)),
            highlights_in_place(views, line_views(lines@)),
            pairs_compared(views, pairs.take(k as int)),
        decreases chosen@.len() - k,
    {
        let (d, a) = chosen[k];
        let ghost before = line_views(lines@);
        proof {
            assert forall|x: int| 0 <= x < k implies 0 <= (#[trigger] pairs.take(k as int)[x]).0
                < views.len() && 0 <= pairs.take(k as int)[x].1 < views.len() by {
                assert(pairs.take(k as int)[x] == pairs[x]);
            }
            law_highlighting_keeps_text(views, pairs.take(k as int));
            assert(pairs.take(k + 1).drop_last() =~= pairs.take(k as int));
            assert(pairs.take(k + 1).last() == pairs[k as int]);
            assert(before[del_start + d] == lines@[del_start + d]@);
            assert(before[add_start + a] == lines@[add_start + a]@);
            assert(views[del_start + d].content == before[del_start + d].content);
            assert(views[add_start + a].content == before[add_start + a].content);
        }
        compute_pair_highlights(lines, del_start + d, add_start + a);
        proof {
            let after = line_views(lines@);
            assert(after[del_start + d] == lines@[del_start + d]@);
            assert(after[add_start + a] == lines@[add_start + a]@);
            assert forall|i: int| 0 <= i < views.len() && ranges_in(
                (#[trigger] views[i]).highlights,
                views[i].content,
            ) implies ranges_in(after[i].highlights, after[i].content) by {
                assert(ranges_in(before[i].highlights, before[i].content));
            }
            let more = pairs.take(k + 1);
            assert forall|x: int| 0 <= x < more.len() implies pair_compared(
                views[(#[trigger] more[x]).0].content,
                views[more[x].1].content,
            ) by {
                if x < k {
                    assert(more[x] == pairs.take(k as int)[x]);
                }
            }
        }
        k = k + 1;
    }
    assert(pairs.take(k as int) =~= pairs);
}

/// Whether the texts of all the pairs have been compared.
pub open spec fn pairs_compared(lines: Seq<LineView>, pairs: Seq<(int, int)>) -> bool {
    forall|k: int|
        0 <= k < pairs.len() ==> pair_compared(
            lines[(#[trigger] pairs[k]).0].content,
            lines[pairs[k].1].content,
        )
}

/// Whether every line whose highlights stood in its text still has such highlights.
pub open spec fn highlights_in_place(before: Seq<LineView>, after: Seq<LineView>) -> bool {
    forall|i: int|
        0 <= i < before.len() && ranges_in((#[trigger] before[i]).highlights, before[i].content)
            ==> ranges_in(after[i].highlights, after[i].content)
}

/// For each contiguous group of Delete lines followed immediately by Add lines
/// in a hunk, compute word-level highlights.
///
/// Rules:
/// - If the group has **equal** numbers of deletes and adds (N:N), pair each
///   Delete with the corresponding Add (first-to-first, etc.) and annotate
///   both with changed-word byte ranges.
/// - If the counts differ (N:M), pair them using a greedy best-match
///   similarity algorithm (requiring similarity ratio >= 0.5) so that similar
///   lines are still highlighted, while completely different lines are skipped.
pub fn add_inline_highlights(lines: &mut [DiffLine])
    requires
        comparable(line_views(old(lines)@)),
    ensures
        final(lines)@.len() == old(lines)@.len(),
        line_views(final(lines)@) == with_highlights(line_views(old(lines)@)),
        same_text(line_views(old(lines)@), line_views(final(lines)@)),
        highlights_in_place(line_views(old(lines)@), line_views(final(lines)@)),
        pairs_compared(line_views(old(lines)@), pairs_from(line_views(old(lines)@), 0)),
{
    let ghost views = line_views(lines@);
    let ghost mut pairs: Seq<(int, int)> = Seq::empty();
    let mut i: usize = 0;
    assert(pairs + pairs_from(views, 0) =~= pairs_from(views, 0));
    while i < lines.len()
        invariant
            i <= lines@.len(),
            lines@.len() == views.len(),
            comparable(views),
            pairs_within(pairs, views.len() as int),
            pairs + pairs_from(views, i as int) == pairs_from(views, 0),
            line_views(lines@) == highlighted(views, pairs),
            highlights_in_place(views, line_views(lines@)),
            pairs_compared(views, pairs),
        decreases lines@.len() - i,
    {
        let ghost before = line_views(lines@);
        proof {
            law_highlighting_keeps_text(views, pairs);
            assert(before[i as int] == lines@[i as int]@);
            assert(views[i as int].line_type == before[i as int].line_type);
        }
        if lines[i].line_type != DiffLineType::Delete {
            i = i + 1;
        } else {
            let del_start: usize = i;
            let add_start: usize = find_run_end(lines, i, DiffLineType::Delete);
            let end: usize = find_run_end(lines, add_start, DiffLineType::Add);
            proof {
                lemma_run_end(views, del_start as int, DiffLineType::Delete);
                lemma_run_same_text(views, before, del_start as int, DiffLineType::Delete);
                lemma_run_same_text(views, before, add_start as int, DiffLineType::Add);
                assert forall|k: int| 0 <= k < before.len() implies (#[trigger] before[k]).content.len()
                    <= MAX_LINE_CHARS by {
                    assert(views[k].content == before[k].content);
                }
            }
            highlight_group(lines, del_start, add_start, end);
            proof {
                let group = group_pairs(views, del_start as int, add_start as int, end as int);
                lemma_pairs_same_text(
                    views,
                    before,
                    del_start as int,
                    add_start as int,
                    end as int,
                );
                lemma_highlighted_concat(views, pairs, group);
                lemma_group_pairs(views, del_start as int, add_start as int, end as int);
                assert forall|k: int| 0 <= k < (pairs + group).len() implies 0 <= (#[trigger] (pairs
                    + group)[k]).0 < views.len() && 0 <= (pairs + group)[k].1 < views.len() by {
                    if k < pairs.len() {
                        assert((pairs + group)[k] == pairs[k]);
                    } else {
                        assert((pairs + group)[k] == group[k - pairs.len()]);
                    }
                }
                assert forall|k: int| 0 <= k < (pairs + group).len() implies pair_compared(
                    views[(#[trigger] (pairs + group)[k]).0].content,
                    views[(pairs + group)[k].1].content,
                ) by {
                    if k < pairs.len() {
                        assert((pairs + group)[k] == pairs[k]);
                    } else {
                        let p = group[k - pairs.len()];
                        assert((pairs + group)[k] == p);
                        assert(pair_compared(before[p.0].content, before[p.1].content));
                        assert(views[p.0].content == before[p.0].content);
                        assert(views[p.1].content == before[p.1].content);
                    }
                }
                assert(pairs + (group + pairs_from(views, end as int)) =~= (pairs + group)
                    + pairs_from(views, end as int));
                pairs = pairs + group;
            }
            i = end;
        }
    }
    proof {
        assert(pairs + pairs_from(views, i as int) =~= pairs);
        law_highlighting_keeps_text(views, pairs);
    }
}

/// Runs do not depend on the highlights.
proof fn lemma_run_same_text(a: Seq<LineView>, b: Seq<LineView>, i: int, t: DiffLineType)
    requires
        same_text(a, b),
        0 <= i <= a.len(),
    ensures
        run_end(a, i, t) == run_end(b, i, t),
    decreases a.len() - i,
{
    if i < a.len() {
        assert(a[i].line_type == b[i].line_type);
        if a[i].line_type == t {
            lemma_run_same_text(a, b, i + 1, t);
        }
    }
}

/// Whether no line is in two of the pairs.
pub open spec fn disjoint_pairs(pairs: Seq<(int, int)>) -> bool {
    &&& forall|i: int, j: int|
        0 <= i < j < pairs.len() ==> (#[trigger] pairs[i]).0 != (#[trigger] pairs[j]).0
            && pairs[i].1 != pairs[j].1
    &&& forall|i: int, j: int|
        0 <= i < pairs.len() && 0 <= j < pairs.len() ==> (#[trigger] pairs[i]).0 != (
        #[trigger] pairs[j]).1
}

/// Whether the line `i` is in one of the pairs.
pub open spec fn is_paired(pairs: Seq<(int, int)>, i: int) -> bool {
    exists|k: int| 0 <= k < pairs.len() && ((#[trigger] pairs[k]).0 == i || pairs[k].1 == i)
}

/// Highlighting disjoint pairs gives the lines of each pair the highlights of their two texts and
/// leaves the other lines alone.
proof fn lemma_highlighted_values(lines: Seq<LineView>, pairs: Seq<(int, int)>)
    requires
        pairs_within(pairs, lines.len() as int),
        disjoint_pairs(pairs),
    ensures
        forall|k: int|
            0 <= k < pairs.len() ==> {
                let p = #[trigger] pairs[k];
                let r = pair_ranges(lines[p.0].content, lines[p.1].content);
                &&& highlighted(lines, pairs)[p.0].highlights == r.0
                &&& highlighted(lines, pairs)[p.1].highlights == r.1
            },
        forall|i: int|
            0 <= i < lines.len() && !is_paired(pairs, i) ==> #[trigger] highlighted(lines, pairs)[i]
                == lines[i],
    decreases pairs.len(),
{
    if pairs.len() > 0 {
        let rest = pairs.drop_last();
        let last = pairs.last();
        let n = pairs.len() - 1;
        assert(last == pairs[n]);
        assert forall|k: int| 0 <= k < rest.len() implies 0 <= (#[trigger] rest[k]).0 < lines.len()
            && 0 <= rest[k].1 < lines.len() by {
            assert(rest[k] == pairs[k]);
        }
        assert forall|i: int, j: int| 0 <= i < j < rest.len() implies (#[trigger] rest[i]).0 != (
        #[trigger] rest[j]).0 && rest[i].1 != rest[j].1 by {
            assert(pairs[i].0 != pairs[j].0);
        }
        assert forall|i: int, j: int| 0 <= i < rest.len() && 0 <= j < rest.len() implies (
        #[trigger] rest[i]).0 != (#[trigger] rest[j]).1 by {
            assert(pairs[i].0 != pairs[j].1);
        }
        lemma_highlighted_values(lines, rest);
        law_highlighting_keeps_text(lines, rest);
        let before = highlighted(lines, rest);
        let after = highlighted(lines, pairs);
        assert(lines[last.0].content == before[last.0].content);
        assert(lines[last.1].content == before[last.1].content);
        assert(pairs[n].0 != pairs[n].1);
        assert forall|k: int| 0 <= k < pairs.len() implies {
            let p = #[trigger] pairs[k];
            let r = pair_ranges(lines[p.0].content, lines[p.1].content);
            &&& after[p.0].highlights == r.0
            &&& after[p.1].highlights == r.1
        } by {
            if k < n {
                assert(rest[k] == pairs[k]);
                assert(pairs[k].0 != pairs[n].0);
                assert(pairs[k].0 != pairs[n].1);
                assert(pairs[n].0 != pairs[k].1);
            }
        }
        assert forall|i: int| 0 <= i < lines.len() && !is_paired(pairs, i) implies #[trigger] after[i]
            == lines[i] by {
            assert(pairs[n].0 != i && pairs[n].1 != i);
            assert(!is_paired(rest, i)) by {
                if is_paired(rest, i) {
                    let k = choose|k: int|
                        0 <= k < rest.len() && ((#[trigger] rest[k]).0 == i || rest[k].1 == i);
                    assert(pairs[k] == rest[k]);
                }
            }
            assert(before[i] == lines[i]);
        }
    }
}

/// The pairs of a hunk are disjoint and of its lines.
proof fn lemma_pairs_disjoint(lines: Seq<LineView>)
    requires
        lines.len() <= usize::MAX,
    ensures
        pairs_within(pairs_from(lines, 0), lines.len() as int),
        disjoint_pairs(pairs_from(lines, 0)),
{
    law_pairs(lines, 0);
    let pairs = pairs_from(lines, 0);
    assert forall|i: int, j: int| 0 <= i < pairs.len() && 0 <= j < pairs.len() implies (
    #[trigger] pairs[i]).0 != (#[trigger] pairs[j]).1 by {
        assert(lines[pairs[i].0].line_type == DiffLineType::Delete);
        assert(lines[pairs[j].1].line_type == DiffLineType::Add);
    }
}

/// The lines of each pair have the highlights of their two texts, and a line that is in no pair,
/// among them every line that is neither added nor deleted, is as it was.
pub proof fn law_with_highlights(lines: Seq<LineView>)
    requires
        lines.len() <= usize::MAX,
    ensures
        same_text(lines, with_highlights(lines)),
        forall|k: int|
            0 <= k < pairs_from(lines, 0).len() ==> {
                let p = #[trigger] pairs_from(lines, 0)[k];
                let r = pair_ranges(lines[p.0].content, lines[p.1].content);
                &&& with_highlights(lines)[p.0].highlights == r.0
                &&& with_highlights(lines)[p.1].highlights == r.1
            },
        forall|i: int|
            0 <= i < lines.len() && !is_paired(pairs_from(lines, 0), i)
                ==> #[trigger] with_highlights(lines)[i] == lines[i],
        forall|i: int|
            0 <= i < lines.len() && (#[trigger] lines[i]).line_type != DiffLineType::Delete
                && lines[i].line_type != DiffLineType::Add ==> with_highlights(lines)[i]
                == lines[i],
{
    lemma_pairs_disjoint(lines);
    lemma_highlighted_values(lines, pairs_from(lines, 0));
    law_highlighting_keeps_text(lines, pairs_from(lines, 0));
    law_pairs(lines, 0);
    let pairs = pairs_from(lines, 0);
    assert forall|i: int|
        0 <= i < lines.len() && (#[trigger] lines[i]).line_type != DiffLineType::Delete
            && lines[i].line_type != DiffLineType::Add implies with_highlights(lines)[i]
        == lines[i] by {
        assert(!is_paired(pairs, i)) by {
            if is_paired(pairs, i) {
                let k = choose|k: int|
                    0 <= k < pairs.len() && ((#[trigger] pairs[k]).0 == i || pairs[k].1 == i);
                assert(lines[pairs[k].0].line_type == DiffLineType::Delete);
            }
        }
    }
}

/// What the pairs of a hunk are does not depend on the highlights.
pub proof fn lemma_pairs_from_same_text(a: Seq<LineView>, b: Seq<LineView>, i: int)
    requires
        same_text(a, b),
        0 <= i <= a.len(),
    ensures
        pairs_from(a, i) == pairs_from(b, i),
    decreases a.len() - i,
{
    if i < a.len() {
        assert(a[i].line_type == b[i].line_type);
        if a[i].line_type != DiffLineType::Delete {
            lemma_pairs_from_same_text(a, b, i + 1);
        } else {
            let m = run_end(a, i, DiffLineType::Delete);
            let e = run_end(a, m, DiffLineType::Add);
            lemma_run_end(a, i, DiffLineType::Delete);
            lemma_run_end(a, m, DiffLineType::Add);
            lemma_run_same_text(a, b, i, DiffLineType::Delete);
            lemma_run_same_text(a, b, m, DiffLineType::Add);
            lemma_pairs_same_text(a, b, i, m, e);
            lemma_pairs_from_same_text(a, b, e);
        }
    }
}

/// Adding highlights to lines that have them already changes nothing.
pub proof fn law_highlights_idempotent(lines: Seq<LineView>)
    requires
        lines.len() <= usize::MAX,
    ensures
        with_highlights(with_highlights(lines)) == with_highlights(lines),
{
    let once = with_highlights(lines);
    let twice = with_highlights(once);
    let pairs = pairs_from(lines, 0);
    law_with_highlights(lines);
    law_with_highlights(once);
    lemma_pairs_from_same_text(lines, once, 0);
    lemma_pairs_disjoint(lines);
    assert forall|i: int| 0 <= i < lines.len() implies #[trigger] twice[i] == once[i] by {
        assert(once[i].content == twice[i].content);
        assert(lines[i].content == once[i].content);
        if is_paired(pairs, i) {
            let k = choose|k: int|
                0 <= k < pairs.len() && ((#[trigger] pairs[k]).0 == i || pairs[k].1 == i);
            let p = pairs[k];
            assert(lines[p.0].content == once[p.0].content);
            assert(lines[p.1].content == once[p.1].content);
        }
    }
    assert(twice =~= once);
}

/// Whether no group of deleted and added lines goes on from before the line `j` into it.
pub open spec fn group_border(lines: Seq<LineView>, j: int) -> bool {
    &&& 0 <= j <= lines.len()
    &&& 0 < j < lines.len() ==> {
        let before = lines[j - 1].line_type;
        let after = lines[j].line_type;
        &&& before == DiffLineType::Delete ==> after != DiffLineType::Delete && after
            != DiffLineType::Add
        &&& before == DiffLineType::Add ==> after != DiffLineType::Add
    }
}

/// The pairs of lines that stand `by` lines later.
pub open spec fn shifted(pairs: Seq<(int, int)>, by: int) -> Seq<(int, int)> {
    Seq::new(pairs.len(), |k: int| (pairs[k].0 + by, pairs[k].1 + by))
}

/// A run that ends within a part of the lines is a run of that part.
proof fn lemma_run_part(lines: Seq<LineView>, lo: int, hi: int, i: int, t: DiffLineType)
    requires
        0 <= lo <= i <= hi <= lines.len(),
        run_end(lines, i, t) <= hi,
    ensures
        run_end(lines.subrange(lo, hi), i - lo, t) == run_end(lines, i, t) - lo,
    decreases hi - i,
{
    let part = lines.subrange(lo, hi);
    lemma_run_end(lines, i, t);
    if i < hi {
        assert(part[i - lo] == lines[i]);
        if lines[i].line_type == t {
            lemma_run_part(lines, lo, hi, i + 1, t);
        }
    }
}

/// The pairs of a group within a part of the lines are those of the part.
proof fn lemma_group_part(lines: Seq<LineView>, lo: int, hi: int, s: int, m: int, e: int)
    requires
        0 <= lo <= s <= m <= e <= hi <= lines.len(),
    ensures
        group_pairs(lines, s, m, e) == shifted(
            group_pairs(lines.subrange(lo, hi), s - lo, m - lo, e - lo),
            lo,
        ),
{
    let part = lines.subrange(lo, hi);
    let x = similarity_rows(lines, s, m, e);
    let y = similarity_rows(part, s - lo, m - lo, e - lo);
    assert forall|d: int| 0 <= d < x.len() implies #[trigger] x[d] == y[d] by {
        assert forall|k: int| 0 <= k < x[d].len() implies #[trigger] x[d][k] == y[d][k] by {
            assert(part[s - lo + d] == lines[s + d]);
            assert(part[m - lo + k] == lines[m + k]);
        }
        assert(x[d] =~= y[d]);
    }
    assert(x =~= y);
    assert(group_pairs(lines, s, m, e) =~= shifted(
        group_pairs(part, s - lo, m - lo, e - lo),
        lo,
    ));
}

/// The pairs of a part of the lines that ends between groups come before those of the lines after
/// it.
proof fn lemma_pairs_part(lines: Seq<LineView>, lo: int, hi: int, i: int)
    requires
        0 <= lo <= i <= hi <= lines.len(),
        group_border(lines, hi),
    ensures
        pairs_from(lines, i) == shifted(pairs_from(lines.subrange(lo, hi), i - lo), lo)
            + pairs_from(lines, hi),
    decreases hi - i,
{
    let part = lines.subrange(lo, hi);
    let rest = pairs_from(lines, hi);
    if i == hi {
        assert(shifted(pairs_from(part, i - lo), lo) + rest =~= rest);
    } else {
        assert(part[i - lo] == lines[i]);
        if lines[i].line_type != DiffLineType::Delete {
            lemma_pairs_part(lines, lo, hi, i + 1);
        } else {
            let m = run_end(lines, i, DiffLineType::Delete);
            let e = run_end(lines, m, DiffLineType::Add);
            lemma_run_end(lines, i, DiffLineType::Delete);
            lemma_run_end(lines, m, DiffLineType::Add);
            assert(m <= hi) by {
                if m > hi {
                    assert(lines[hi - 1].line_type == DiffLineType::Delete);
                    assert(lines[hi].line_type == DiffLineType::Delete);
                }
            }
            assert(e <= hi) by {
                if e > hi {
                    assert(lines[hi].line_type == DiffLineType::Add);
                    if m < hi {
                        assert(lines[hi - 1].line_type == DiffLineType::Add);
                    } else {
                        assert(lines[hi - 1].line_type == DiffLineType::Delete);
                    }
                }
            }
            lemma_run_part(lines, lo, hi, i, DiffLineType::Delete);
            lemma_run_part(lines, lo, hi, m, DiffLineType::Add);
            lemma_group_part(lines, lo, hi, i, m, e);
            lemma_pairs_part(lines, lo, hi, e);
            let group = group_pairs(part, i - lo, m - lo, e - lo);
            let later = pairs_from(part, e - lo);
            assert(pairs_from(part, i - lo) == group + later);
            assert(pairs_from(lines, i) == shifted(group, lo) + pairs_from(lines, e));
            assert(shifted(group, lo) + (shifted(later, lo) + rest) =~= shifted(group + later, lo)
                + rest);
        }
    }
}

/// A line of a part of the lines is highlighted as it is in the part alone, if the pairs of the part
/// stand among all pairs from `o` on and the other pairs have no line of the part.
proof fn lemma_part_line(lines: Seq<LineView>, lo: int, hi: int, o: int, i: int)
    requires
        0 <= lo <= i < hi <= lines.len() <= usize::MAX,
        ({
            let all = pairs_from(lines, 0);
            let own = pairs_from(lines.subrange(lo, hi), 0);
            &&& 0 <= o <= o + own.len() <= all.len()
            &&& forall|k: int|
                0 <= k < own.len() ==> #[trigger] all[o + k] == (own[k].0 + lo, own[k].1 + lo)
            &&& forall|k: int|
                0 <= k < all.len() && (k < o || o + own.len() <= k) ==> (#[trigger] all[k]).0 != i
                    && all[k].1 != i
        }),
    ensures
        with_highlights(lines)[i] == with_highlights(lines.subrange(lo, hi))[i - lo],
{
    let part = lines.subrange(lo, hi);
    let all = pairs_from(lines, 0);
    let own = pairs_from(part, 0);
    let w = with_highlights(lines);
    let v = with_highlights(part);
    law_with_highlights(lines);
    law_with_highlights(part);
    assert(part[i - lo] == lines[i]);
    assert(lines[i].content == w[i].content);
    assert(part[i - lo].content == v[i - lo].content);
    if is_paired(own, i - lo) {
        let k = choose|k: int|
            0 <= k < own.len() && ((#[trigger] own[k]).0 == i - lo || own[k].1 == i - lo);
        law_pairs(part, 0);
        assert(all[o + k] == (own[k].0 + lo, own[k].1 + lo));
        assert(part[own[k].0] == lines[own[k].0 + lo]);
        assert(part[own[k].1] == lines[own[k].1 + lo]);
    } else {
        assert(!is_paired(all, i)) by {
            if is_paired(all, i) {
                let k = choose|k: int|
                    0 <= k < all.len() && ((#[trigger] all[k]).0 == i || all[k].1 == i);
                assert(all[o + (k - o)] == (own[k - o].0 + lo, own[k - o].1 + lo));
                assert(own[k - o].0 == i - lo || own[k - o].1 == i - lo);
            }
        }
    }
}

/// Groups are highlighted independently of each other: highlighting lines is highlighting those
/// before and those from a line on where no group goes on.
pub proof fn law_groups_independent(lines: Seq<LineView>, j: int)
    requires
        lines.len() <= usize::MAX,
        group_border(lines, j),
    ensures
        with_highlights(lines) == with_highlights(lines.take(j)) + with_highlights(lines.skip(j)),
{
    let n = lines.len() as int;
    let head = lines.take(j);
    let tail = lines.skip(j);
    let all = pairs_from(lines, 0);
    let ph = pairs_from(head, 0);
    let pt = pairs_from(tail, 0);
    lemma_pairs_part(lines, 0, j, 0);
    lemma_pairs_part(lines, j, n, j);
    assert(lines.subrange(0, j) =~= head);
    assert(lines.subrange(j, n) =~= tail);
    assert(shifted(ph, 0) =~= ph);
    assert(all =~= ph + shifted(pt, j));
    let w = with_highlights(lines);
    let both = with_highlights(head) + with_highlights(tail);
    assert(w.len() == n && with_highlights(head).len() == j && both.len() == n) by {
        law_with_highlights(lines);
        law_with_highlights(head);
        law_with_highlights(tail);
    }
    assert forall|k: int| 0 <= k < ph.len() implies 0 <= (#[trigger] ph[k]).0 < j && 0 <= ph[k].1
        < j by {
        law_pairs(head, 0);
    }
    assert forall|k: int| 0 <= k < pt.len() implies 0 <= (#[trigger] pt[k]).0 && 0
        <= pt[k].1 by {
        law_pairs(tail, 0);
    }
    assert forall|k: int| ph.len() <= k < all.len() implies (#[trigger] all[k]).0 >= j && all[k].1
        >= j by {
        let p = pt[k - ph.len()];
        assert(all[k] == (p.0 + j, p.1 + j));
    }
    assert forall|i: int| 0 <= i < n implies #[trigger] w[i] == both[i] by {
        if i < j {
            lemma_part_line(lines, 0, j, 0, i);
        } else {
            assert forall|k: int| 0 <= k < pt.len() implies #[trigger] all[ph.len() + k] == (
                pt[k].0 + j,
                pt[k].1 + j,
            ) by {}
            lemma_part_line(lines, j, n, ph.len() as int, i);
        }
    }
    assert(w =~= both);
}

/// Where a run of lines of one type ends.
proof fn lemma_run_end_is(lines: Seq<LineView>, i: int, t: DiffLineType, e: int)
    requires
        0 <= i <= e <= lines.len(),
        forall|x: int| i <= x < e ==> (#[trigger] lines[x]).line_type == t,
        e < lines.len() ==> lines[e].line_type != t,
    ensures
        run_end(lines, i, t) == e,
    decreases e - i,
{
    if i < e {
        assert(lines[i].line_type == t);
        lemma_run_end_is(lines, i + 1, t, e);
    }
}

/// The pairs of a hunk are those of the lines before a group, those of the group, and those of the
/// lines after it.
proof fn lemma_pairs_around(lines: Seq<LineView>, s: int, m: int, e: int)
    requires
        lines.len() <= usize::MAX,
        0 <= s < m <= e <= lines.len(),
        forall|x: int| s <= x < m ==> (#[trigger] lines[x]).line_type == DiffLineType::Delete,
        forall|x: int| m <= x < e ==> (#[trigger] lines[x]).line_type == DiffLineType::Add,
        s > 0 ==> lines[s - 1].line_type != DiffLineType::Delete,
        e < lines.len() ==> lines[e].line_type != DiffLineType::Add,
        m == e && e < lines.len() ==> lines[e].line_type != DiffLineType::Delete,
    ensures
        pairs_from(lines, 0) == pairs_from(lines.take(s), 0) + group_pairs(lines, s, m, e)
            + pairs_from(lines, e),
{
    assert(lines[s].line_type == DiffLineType::Delete);
    assert(m < lines.len() ==> lines[m].line_type != DiffLineType::Delete);
    lemma_run_end_is(lines, s, DiffLineType::Delete, m);
    lemma_run_end_is(lines, m, DiffLineType::Add, e);
    assert(group_border(lines, s));
    lemma_pairs_part(lines, 0, s, 0);
    assert(lines.subrange(0, s) =~= lines.take(s));
    let head = pairs_from(lines.take(s), 0);
    assert(shifted(head, 0) =~= head);
    assert(pairs_from(lines, s) == group_pairs(lines, s, m, e) + pairs_from(lines, e));
    assert(pairs_from(lines, 0) =~= head + group_pairs(lines, s, m, e) + pairs_from(lines, e));
}

/// Where as many added lines follow deleted lines as there are of these, the first goes with the
/// first, the second with the second, and so on, and both lines of each pair have the highlights of
/// their two texts.
pub proof fn law_equal_groups(lines: Seq<LineView>, s: int, n: int, k: int)
    requires
        lines.len() <= usize::MAX,
        0 <= s,
        0 <= k < n,
        s + 2 * n <= lines.len(),
        forall|x: int| s <= x < s + n ==> (#[trigger] lines[x]).line_type == DiffLineType::Delete,
        forall|x: int|
            s + n <= x < s + 2 * n ==> (#[trigger] lines[x]).line_type == DiffLineType::Add,
        s > 0 ==> lines[s - 1].line_type != DiffLineType::Delete,
        s + 2 * n < lines.len() ==> lines[s + 2 * n].line_type != DiffLineType::Add,
    ensures
        pairs_from(lines, 0).contains((s + k, s + n + k)),
        with_highlights(lines)[s + k].highlights == pair_ranges(
            lines[s + k].content,
            lines[s + n + k].content,
        ).0,
        with_highlights(lines)[s + n + k].highlights == pair_ranges(
            lines[s + k].content,
            lines[s + n + k].content,
        ).1,
{
    let pairs = pairs_from(lines, 0);
    let before = pairs_from(lines.take(s), 0);
    let group = group_pairs(lines, s, s + n, s + 2 * n);
    lemma_pairs_around(lines, s, s + n, s + 2 * n);
    assert(group[k] == (s + k, s + n + k));
    assert(pairs[before.len() + k] == group[k]);
    law_with_highlights(lines);
}

/// A pair of two lines of a group whose counts differ is one of the best pairs of the group.
proof fn lemma_pair_is_best(lines: Seq<LineView>, s: int, m: int, e: int, d: int, a: int) -> (k: int)
    requires
        lines.len() <= usize::MAX,
        0 <= s <= d < m <= a < e <= lines.len(),
        m - s != e - m,
        forall|x: int| s <= x < m ==> (#[trigger] lines[x]).line_type == DiffLineType::Delete,
        forall|x: int| m <= x < e ==> (#[trigger] lines[x]).line_type == DiffLineType::Add,
        s > 0 ==> lines[s - 1].line_type != DiffLineType::Delete,
        e < lines.len() ==> lines[e].line_type != DiffLineType::Add,
        pairs_from(lines, 0).contains((d, a)),
    ensures
        0 <= k < best_pairs(similarity_rows(lines, s, m, e)).len(),
        best_pairs(similarity_rows(lines, s, m, e))[k].0 == d - s,
        best_pairs(similarity_rows(lines, s, m, e))[k].1 == a - m,
{
    let pairs = pairs_from(lines, 0);
    let before = pairs_from(lines.take(s), 0);
    let group = group_pairs(lines, s, m, e);
    let after = pairs_from(lines, e);
    lemma_pairs_around(lines, s, m, e);
    let k = choose|k: int| 0 <= k < pairs.len() && pairs[k] == (d, a);
    if k < before.len() {
        law_pairs(lines.take(s), 0);
        assert(before[k] == (d, a));
    } else if k >= before.len() + group.len() {
        law_pairs(lines, e);
        assert(after[k - before.len() - group.len()] == (d, a));
    } else {
        assert(group[k - before.len()] == (d, a));
    }
    k - before.len()
}

/// One of the best pairs of a group whose counts differ is a pair of the lines.
proof fn lemma_best_is_pair(lines: Seq<LineView>, s: int, m: int, e: int, k: int)
    requires
        lines.len() <= usize::MAX,
        0 <= s < m < e <= lines.len(),
        m - s != e - m,
        forall|x: int| s <= x < m ==> (#[trigger] lines[x]).line_type == DiffLineType::Delete,
        forall|x: int| m <= x < e ==> (#[trigger] lines[x]).line_type == DiffLineType::Add,
        s > 0 ==> lines[s - 1].line_type != DiffLineType::Delete,
        e < lines.len() ==> lines[e].line_type != DiffLineType::Add,
        0 <= k < best_pairs(similarity_rows(lines, s, m, e)).len(),
    ensures
        ({
            let p = best_pairs(similarity_rows(lines, s, m, e))[k];
            pairs_from(lines, 0).contains((s + p.0, m + p.1))
        }),
{
    let pairs = pairs_from(lines, 0);
    let before = pairs_from(lines.take(s), 0);
    let group = group_pairs(lines, s, m, e);
    lemma_pairs_around(lines, s, m, e);
    assert(pairs[before.len() + k] == group[k]);
}

/// Where there are more deleted lines than added lines that follow them, or fewer, only lines that
/// are at least half the same are paired.
pub proof fn law_unequal_groups(lines: Seq<LineView>, s: int, m: int, e: int, d: int, a: int)
    requires
        lines.len() <= usize::MAX,
        0 <= s <= d < m <= a < e <= lines.len(),
        m - s != e - m,
        forall|x: int| s <= x < m ==> (#[trigger] lines[x]).line_type == DiffLineType::Delete,
        forall|x: int| m <= x < e ==> (#[trigger] lines[x]).line_type == DiffLineType::Add,
        s > 0 ==> lines[s - 1].line_type != DiffLineType::Delete,
        e < lines.len() ==> lines[e].line_type != DiffLineType::Add,
        pairs_from(lines, 0).contains((d, a)),
    ensures
        4 * similarity(lines[d].content, lines[a].content).equal >= similarity(
            lines[d].content,
            lines[a].content,
        ).old_len + similarity(lines[d].content, lines[a].content).new_len,
{
    let rows = similarity_rows(lines, s, m, e);
    let k = lemma_pair_is_best(lines, s, m, e, d, a);
    let p = best_pairs(rows)[k];
    law_pairs_made(rows);
    assert(rows[p.0 as int][p.1 as int] == similarity(lines[d].content, lines[a].content));
}

/// Of a deleted line and an added line of such a group that are at least half the same, one is in a
/// pair with the other, or with a line of the group that it is more similar to, or as similar to
/// where that line stands further in front.
pub proof fn law_unequal_groups_owed(lines: Seq<LineView>, s: int, m: int, e: int, d: int, a: int)
    requires
        lines.len() <= usize::MAX,
        0 <= s <= d < m <= a < e <= lines.len(),
        m - s != e - m,
        forall|x: int| s <= x < m ==> (#[trigger] lines[x]).line_type == DiffLineType::Delete,
        forall|x: int| m <= x < e ==> (#[trigger] lines[x]).line_type == DiffLineType::Add,
        s > 0 ==> lines[s - 1].line_type != DiffLineType::Delete,
        e < lines.len() ==> lines[e].line_type != DiffLineType::Add,
        4 * similarity(lines[d].content, lines[a].content).equal >= similarity(
            lines[d].content,
            lines[a].content,
        ).old_len + similarity(lines[d].content, lines[a].content).new_len,
    ensures
        exists|x: int, y: int|
            s <= x < m && m <= y < e && #[trigger] pairs_from(lines, 0).contains((x, y)) && (x == d
                || y == a) && ({
                let r = similarity(lines[d].content, lines[a].content);
                let better = similarity(lines[x].content, lines[y].content);
                above(better, r) || !above(r, better) && (x < d || x == d && y <= a)
            }),
{
    let rows = similarity_rows(lines, s, m, e);
    let best = best_pairs(rows);
    let i = (d - s) as usize;
    let j = (a - m) as usize;
    assert(rows[i as int][j as int] == similarity(lines[d].content, lines[a].content));
    law_pairs_owed(rows, i, j);
    let k = choose|k: int|
        0 <= k < best.len() && ({
            let p = #[trigger] best[k];
            let q = rows[p.0 as int][p.1 as int];
            let t = rows[i as int][j as int];
            &&& p.0 == i || p.1 == j
            &&& above(q, t) || !above(t, q) && (p.0 < i || p.0 == i && p.1 <= j)
        });
    let p = best[k];
    let x = s + p.0;
    let y = m + p.1;
    assert(p.0 < rows.len() && p.1 < rows[p.0 as int].len()) by {
        law_pairs_made(rows);
    }
    assert(rows[p.0 as int][p.1 as int] == similarity(lines[x].content, lines[y].content));
    lemma_best_is_pair(lines, s, m, e, k);
    assert(pairs_from(lines, 0).contains((x, y)));
}

/// The lines of a pair stand in one group: from the deleted line on there are deleted lines, and
/// then added lines up to the added line.
pub proof fn law_pair_in_group(lines: Seq<LineView>, from: int, k: int) -> (m: int)
    requires
        0 <= from <= lines.len() <= usize::MAX,
        0 <= k < pairs_from(lines, from).len(),
    ensures
        from <= pairs_from(lines, from)[k].0 < m <= pairs_from(lines, from)[k].1 < lines.len(),
        forall|x: int|
            pairs_from(lines, from)[k].0 <= x < m ==> (#[trigger] lines[x]).line_type
                == DiffLineType::Delete,
        forall|x: int|
            m <= x <= pairs_from(lines, from)[k].1 ==> (#[trigger] lines[x]).line_type
                == DiffLineType::Add,
    decreases lines.len() - from,
{
    if lines[from].line_type != DiffLineType::Delete {
        law_pair_in_group(lines, from + 1, k)
    } else {
        let m = run_end(lines, from, DiffLineType::Delete);
        let e = run_end(lines, m, DiffLineType::Add);
        lemma_run_end(lines, from, DiffLineType::Delete);
        lemma_run_end(lines, m, DiffLineType::Add);
        lemma_group_pairs(lines, from, m, e);
        let group = group_pairs(lines, from, m, e);
        if k < group.len() {
            assert(pairs_from(lines, from)[k] == group[k]);
            m
        } else {
            assert(pairs_from(lines, from)[k] == pairs_from(lines, e)[k - group.len()]);
            law_pair_in_group(lines, e, k - group.len())
        }
    }
}

/// A line keeps its text, its type and its position. It has the highlights of the pair that it is
/// in, or those that it had if it is in none.
pub proof fn law_highlights_of_line(lines: Seq<LineView>, i: int)
    requires
        lines.len() <= usize::MAX,
        0 <= i < lines.len(),
    ensures
        with_highlights(lines).len() == lines.len(),
        with_highlights(lines)[i].content == lines[i].content,
        with_highlights(lines)[i].line_type == lines[i].line_type,
        with_highlights(lines)[i].position.old_lineno == lines[i].position.old_lineno,
        with_highlights(lines)[i].position.new_lineno == lines[i].position.new_lineno,
        forall|a: int| #[trigger]
            pairs_from(lines, 0).contains((i, a)) ==> with_highlights(lines)[i].highlights
                == pair_ranges(lines[i].content, lines[a].content).0,
        forall|d: int| #[trigger]
            pairs_from(lines, 0).contains((d, i)) ==> with_highlights(lines)[i].highlights
                == pair_ranges(lines[d].content, lines[i].content).1,
        (forall|k: int|
            0 <= k < pairs_from(lines, 0).len() ==> (#[trigger] pairs_from(lines, 0)[k]).0 != i
                && pairs_from(lines, 0)[k].1 != i) ==> with_highlights(lines)[i].highlights
            == lines[i].highlights,
{
    let pairs = pairs_from(lines, 0);
    law_with_highlights(lines);
    assert(lines[i].content == with_highlights(lines)[i].content);
    assert forall|a: int| #[trigger] pairs.contains((i, a)) implies with_highlights(
        lines,
    )[i].highlights == pair_ranges(lines[i].content, lines[a].content).0 by {
        let k = choose|k: int| 0 <= k < pairs.len() && pairs[k] == (i, a);
        assert(pairs[k] == (i, a));
    }
    assert forall|d: int| #[trigger] pairs.contains((d, i)) implies with_highlights(
        lines,
    )[i].highlights == pair_ranges(lines[d].content, lines[i].content).1 by {
        let k = choose|k: int| 0 <= k < pairs.len() && pairs[k] == (d, i);
        assert(pairs[k] == (d, i));
    }
}

} // verus!
