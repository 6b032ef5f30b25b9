//! The changed words of a deleted line and of the added line that replaces it.
use crate::change::{
    change_views, covers_both, diff_tokens, law_side, lemma_side_grows, lemma_side_step,
    count_tagged, lemma_count_tagged, tokens_tagged, on_side, side, token_changes,
    ChangeTag, TokenChange,
};
use crate::line::{
    line_views, ranges, ranges_in, ranges_ordered, DiffLine, InlineHighlight, LineView,
    MAX_LINE_CHARS,
};
use crate::text::{
    blank, byte_len, is_whitespace, lemma_boundary, lemma_boundary_in_prefix, lemma_chars_le_bytes,
    lemma_encode_concat, lemma_encode_injective, slice_text, str_bytes, text_between,
};
use crate::token::{
    joined, law_joined, law_tokens_count, law_tokens_join, law_tokens_uniform, tokenize_code, tokens_of,
    uniform_token,
};
use vstd::prelude::*;
use vstd::utf8::*;

verus! {

/// The byte ranges of the tokens with the tag `own` in the text of their side.
pub open spec fn changed_ranges(changes: Seq<(ChangeTag, Seq<char>)>, own: ChangeTag) -> Seq<
    (int, int),
>
    decreases changes.len(),
{
    if changes.len() == 0 {
        Seq::empty()
    } else {
        let before = changed_ranges(changes.drop_last(), own);
        let start = byte_len(joined(side(changes.drop_last(), own)));
        if changes.last().0 == own {
            before.push((start as int, (start + byte_len(changes.last().1)) as int))
        } else {
            before
        }
    }
}

/// A character boundary of a text is one of every text that starts with it.
proof fn lemma_boundary_extends(a: Seq<char>, b: Seq<char>, k: int)
    requires
        0 <= k <= byte_len(a),
        is_char_boundary(encode_utf8(a), k),
    ensures
        is_char_boundary(encode_utf8(a + b), k),
{
    lemma_encode_concat(a, b);
    encode_utf8_valid_utf8(a);
    encode_utf8_valid_utf8(a + b);
    if k == byte_len(a) {
        lemma_boundary(a, b);
    } else {
        is_char_boundary_iff_not_is_continuation_byte(encode_utf8(a), k);
        is_char_boundary_iff_not_is_continuation_byte(encode_utf8(a + b), k);
        assert(encode_utf8(a + b)[k] == encode_utf8(a)[k]);
    }
}

/// The changed ranges of a side stand in its text, one after the other, and none is empty if no
/// token is.
pub proof fn law_changed_ranges(changes: Seq<(ChangeTag, Seq<char>)>, own: ChangeTag)
    ensures
        ranges_ordered(changed_ranges(changes, own), joined(side(changes, own))),
        (forall|i: int| 0 <= i < changes.len() ==> (#[trigger] changes[i]).1.len() > 0)
            ==> ranges_in(changed_ranges(changes, own), joined(side(changes, own))),
    decreases changes.len(),
{
    if changes.len() > 0 {
        let n = changes.len() - 1;
        let before = changes.drop_last();
        assert(changes.take(n) =~= before);
        assert(changes.take(n + 1) =~= changes);
        law_changed_ranges(before, own);
        lemma_side_step(changes, own, n);
        let a = joined(side(before, own));
        let text = joined(side(changes, own));
        let rs = changed_ranges(before, own);
        let token = changes[n].1;
        if on_side(changes[n].0, own) {
            lemma_chars_le_bytes(token);
            lemma_boundary(a, token);
            lemma_boundary(a + token, Seq::empty());
            assert(a + token + Seq::<char>::empty() =~= a + token);
            assert forall|i: int| 0 <= i < rs.len() implies is_char_boundary(
                encode_utf8(text),
                (#[trigger] rs[i]).0,
            ) && is_char_boundary(encode_utf8(text), rs[i].1) by {
                lemma_boundary_extends(a, token, rs[i].0);
                lemma_boundary_extends(a, token, rs[i].1);
            }
        }
        assert(ranges_ordered(changed_ranges(changes, own), text));
        if forall|i: int| 0 <= i < changes.len() ==> (#[trigger] changes[i]).1.len() > 0 {
            assert forall|i: int| 0 <= i < before.len() implies (#[trigger] before[i]).1.len()
                > 0 by {
                assert(before[i] == changes[i]);
            }
            assert(ranges_in(rs, a));
        }
    }
}

/// The bytes that stand outside some ranges.
pub open spec fn bytes_outside(bytes: Seq<u8>, rs: Seq<(int, int)>) -> Seq<u8>
    decreases rs.len(),
{
    if rs.len() == 0 {
        bytes
    } else {
        bytes_outside(bytes.take(rs.last().0), rs.drop_last()) + bytes.skip(rs.last().1)
    }
}

/// More bytes at the end are outside of ranges that stand before them.
proof fn lemma_outside_append(a: Seq<u8>, b: Seq<u8>, rs: Seq<(int, int)>)
    requires
        rs.len() > 0 ==> 0 <= rs.last().0 <= rs.last().1 <= a.len(),
    ensures
        bytes_outside(a + b, rs) == bytes_outside(a, rs) + b,
{
    if rs.len() > 0 {
        assert((a + b).take(rs.last().0) =~= a.take(rs.last().0));
        assert((a + b).skip(rs.last().1) =~= a.skip(rs.last().1) + b);
        assert(bytes_outside(a + b, rs) =~= bytes_outside(a, rs) + b);
    }
}

/// What stands outside the changed ranges is the same on both sides: the tokens that are equal.
pub proof fn law_unchanged_bytes(changes: Seq<(ChangeTag, Seq<char>)>, own: ChangeTag)
    requires
        own != ChangeTag::Equal,
    ensures
        bytes_outside(encode_utf8(joined(side(changes, own))), changed_ranges(changes, own))
            == encode_utf8(joined(side(changes, ChangeTag::Equal))),
    decreases changes.len(),
{
    if changes.len() > 0 {
        let n = changes.len() - 1;
        let before = changes.drop_last();
        assert(changes.take(n) =~= before);
        assert(changes.take(n + 1) =~= changes);
        law_unchanged_bytes(before, own);
        law_changed_ranges(before, own);
        lemma_side_step(changes, own, n);
        lemma_side_step(changes, ChangeTag::Equal, n);
        let rs = changed_ranges(before, own);
        let a = joined(side(before, own));
        let kept = joined(side(before, ChangeTag::Equal));
        let token = changes[n].1;
        lemma_encode_concat(a, token);
        lemma_encode_concat(kept, token);
        if rs.len() > 0 {
            assert(rs[rs.len() - 1] == rs.last());
        }
        if changes[n].0 == ChangeTag::Equal {
            lemma_outside_append(encode_utf8(a), encode_utf8(token), rs);
        } else if changes[n].0 == own {
            let bytes = encode_utf8(a) + encode_utf8(token);
            let all = changed_ranges(changes, own);
            assert(all.drop_last() =~= rs);
            assert(bytes.take(all.last().0) =~= encode_utf8(a));
            assert(bytes.skip(all.last().1) =~= Seq::empty());
            assert(bytes_outside(bytes, all) =~= bytes_outside(encode_utf8(a), rs));
        }
    }
}

/// The byte ranges of the deleted tokens in the old text and of the inserted tokens in the new
/// text.
pub fn highlights_of(changes: &Vec<TokenChange>) -> (r: (Vec<InlineHighlight>, Vec<InlineHighlight>))
    requires
        byte_len(joined(side(change_views(changes@), ChangeTag::Delete))) <= usize::MAX,
        byte_len(joined(side(change_views(changes@), ChangeTag::Insert))) <= usize::MAX,
    ensures
        ranges(r.0@) == changed_ranges(change_views(changes@), ChangeTag::Delete),
        ranges(r.1@) == changed_ranges(change_views(changes@), ChangeTag::Insert),
{
    let ghost views = change_views(changes@);
    let mut del_highlights: Vec<InlineHighlight> = Vec::new();
    let mut add_highlights: Vec<InlineHighlight> = Vec::new();
    let mut del_offset: usize = 0;
    let mut add_offset: usize = 0;
    let mut k: usize = 0;
    proof {
        assert(views.take(0) =~= Seq::<(ChangeTag, Seq<char>)>::empty());
        assert(ranges(del_highlights@) =~= Seq::<(int, int)>::empty());
        assert(ranges(add_highlights@) =~= Seq::<(int, int)>::empty());
    }
    while k < changes.len()
        invariant
            k <= changes@.len(),
            views == change_views(changes@),
            byte_len(joined(side(views, ChangeTag::Delete))) <= usize::MAX,
            byte_len(joined(side(views, ChangeTag::Insert))) <= usize::MAX,
            del_offset == byte_len(joined(side(views.take(k as int), ChangeTag::Delete))),
            add_offset == byte_len(joined(side(views.take(k as int), ChangeTag::Insert))),
            ranges(del_highlights@) == changed_ranges(views.take(k as int), ChangeTag::Delete),
            ranges(add_highlights@) == changed_ranges(views.take(k as int), ChangeTag::Insert),
        decreases changes@.len() - k,
    {
        let change = &changes[k];
        let len: usize = str_bytes(change.token);
        proof {
            assert(views[k as int] == change@);
            assert(views.take(k + 1).last() == views[k as int]);
            lemma_side_step(views, ChangeTag::Delete, k as int);
            lemma_side_step(views, ChangeTag::Insert, k as int);
            lemma_side_grows(views, ChangeTag::Delete, k + 1);
            lemma_side_grows(views, ChangeTag::Insert, k + 1);
        }
        let ghost del_before = ranges(del_highlights@);
        let ghost add_before = ranges(add_highlights@);
        match change.tag {
            ChangeTag::Delete => {
                let h = InlineHighlight { start: del_offset, end: del_offset + len };
                del_highlights.push(h);
                assert(ranges(del_highlights@) =~= del_before.push(h@));
                del_offset = del_offset + len;
            },
            ChangeTag::Insert => {
                let h = InlineHighlight { start: add_offset, end: add_offset + len };
                add_highlights.push(h);
                assert(ranges(add_highlights@) =~= add_before.push(h@));
                add_offset = add_offset + len;
            },
            ChangeTag::Equal => {
                del_offset = del_offset + len;
                add_offset = add_offset + len;
            },
        }
        k = k + 1;
    }
    assert(views.take(k as int) =~= views);
    (del_highlights, add_highlights)
}

/// Whether only whitespace, or nothing at all, stands in the text from `end` to `start`.
pub open spec fn blank_between(content: Seq<char>, end: int, start: int) -> bool {
    let between = text_between(content, end, start);
    forall|i: int| 0 <= i < between.len() ==> blank(#[trigger] between[i])
}

/// The ranges after those with only whitespace between them have been made one.
pub open spec fn merged(rs: Seq<(int, int)>, content: Seq<char>) -> Seq<(int, int)>
    decreases rs.len(),
{
    if rs.len() == 0 {
        Seq::empty()
    } else {
        let before = merged(rs.drop_last(), content);
        if rs.len() > 1 && blank_between(content, rs[rs.len() - 2].1, rs.last().0) {
            before.drop_last().push((before.last().0, rs.last().1))
        } else {
            before.push(rs.last())
        }
    }
}

/// Whether every range ends on a character boundary of the text, and the one that follows starts
/// on one that is not before it.
pub open spec fn mergeable(rs: Seq<(int, int)>, content: Seq<char>) -> bool {
    forall|i: int|
        0 < i < rs.len() ==> {
            &&& rs[i - 1].1 <= (#[trigger] rs[i]).0
            &&& is_char_boundary(encode_utf8(content), rs[i - 1].1)
            &&& is_char_boundary(encode_utf8(content), rs[i].0)
        }
}

/// The last of the merged ranges ends where the last range does.
proof fn lemma_merged_last(rs: Seq<(int, int)>, content: Seq<char>)
    requires
        rs.len() > 0,
    ensures
        merged(rs, content).len() > 0,
        merged(rs, content).last().1 == rs.last().1,
        merged(rs, content).len() <= rs.len(),
    decreases rs.len(),
{
    if rs.len() > 1 {
        lemma_merged_last(rs.drop_last(), content);
    } else {
        assert(rs.drop_last() =~= Seq::<(int, int)>::empty());
        assert(merged(rs.drop_last(), content) =~= Seq::<(int, int)>::empty());
    }
}

/// Whether `s` holds nothing but whitespace.
fn all_whitespace(s: &str) -> (r: bool)
    ensures
        r == forall|i: int| 0 <= i < s@.len() ==> blank(#[trigger] s@[i]),
{
    for c in it: s.chars()
        invariant
            it.seq() == s@,
            forall|i: int| 0 <= i < it.index() ==> blank(#[trigger] s@[i]),
    {
        if !is_whitespace(c) {
            assert(!blank(s@[it.index()]));
            return false;
        }
    }
    true
}

/// Makes one of highlights that stand side by side or have only whitespace of `content` between
/// them.
pub fn merge_whitespace_separated_highlights(highlights: &mut Vec<InlineHighlight>, content: &str)
    requires
        mergeable(ranges(old(highlights)@), content@),
    ensures
        ranges(final(highlights)@) == merged(ranges(old(highlights)@), content@),
{
    let ghost rs = ranges(highlights@);
    let mut result: Vec<InlineHighlight> = Vec::new();
    let mut k: usize = 0;
    proof {
        assert(rs.take(0) =~= Seq::<(int, int)>::empty());
        assert(ranges(result@) =~= Seq::<(int, int)>::empty());
    }
    while k < highlights.len()
        invariant
            k <= highlights@.len(),
            rs == ranges(highlights@),
            mergeable(rs, content@),
            ranges(result@) == merged(rs.take(k as int), content@),
        decreases highlights@.len() - k,
    {
        let h: InlineHighlight = highlights[k].clone();
        let n: usize = result.len();
        let ghost before = ranges(result@);
        proof {
            assert(rs.take(k + 1).drop_last() =~= rs.take(k as int));
            assert(rs.take(k + 1).last() == h@);
            if k > 0 {
                lemma_merged_last(rs.take(k as int), content@);
                assert(before.last() == result@[n - 1]@);
                assert(rs[k as int] == h@);
            }
        }
        if n > 0 {
            let last_end: usize = result[n - 1].end;
            let between: &str = slice_text(content, last_end, h.start);
            if all_whitespace(between) {
                result[n - 1].end = h.end;
                assert(ranges(result@) =~= before.drop_last().push((before.last().0, h@.1)));
            } else {
                result.push(h);
                assert(ranges(result@) =~= before.push(h@));
            }
        } else {
            result.push(h);
            assert(ranges(result@) =~= before.push(h@));
        }
        k = k + 1;
    }
    assert(rs.take(k as int) =~= rs);
    *highlights = result;
}

/// Whether one of the ranges holds the byte `p`.
pub open spec fn covered(rs: Seq<(int, int)>, p: int) -> bool {
    exists|i: int| 0 <= i < rs.len() && (#[trigger] rs[i]).0 <= p < rs[i].1
}

/// Whether the byte `p` stands between two ranges that have only whitespace between them.
pub open spec fn in_blank_gap(rs: Seq<(int, int)>, content: Seq<char>, p: int) -> bool {
    exists|i: int|
        0 < i < rs.len() && rs[i - 1].1 <= p < (#[trigger] rs[i]).0 && blank_between(
            content,
            rs[i - 1].1,
            rs[i].0,
        )
}

/// Merging keeps the ranges in order and leaves none with only whitespace before the next.
pub proof fn law_merged(rs: Seq<(int, int)>, content: Seq<char>)
    requires
        ranges_ordered(rs, content),
    ensures
        ranges_ordered(merged(rs, content), content),
        ranges_in(rs, content) ==> ranges_in(merged(rs, content), content),
        forall|j: int|
            0 < j < merged(rs, content).len() ==> !blank_between(
                content,
                merged(rs, content)[j - 1].1,
                (#[trigger] merged(rs, content)[j]).0,
            ),
    decreases rs.len(),
{
    if rs.len() > 0 {
        let before = merged(rs.drop_last(), content);
        let m = merged(rs, content);
        law_merged(rs.drop_last(), content);
        if rs.len() > 1 {
            lemma_merged_last(rs.drop_last(), content);
            assert(rs.drop_last().last() == rs[rs.len() - 2]);
            assert(before.last() == before[before.len() - 1]);
            assert(ranges_in(rs, content) ==> ranges_in(rs.drop_last(), content));
        } else {
            assert(rs.drop_last() =~= Seq::<(int, int)>::empty());
            assert(before =~= Seq::<(int, int)>::empty());
        }
        assert(ranges_ordered(m, content));
    }
}

/// One more range covers its own bytes.
proof fn lemma_covered_push(rs: Seq<(int, int)>, r: (int, int), p: int)
    ensures
        covered(rs.push(r), p) <==> covered(rs, p) || r.0 <= p < r.1,
{
    let more = rs.push(r);
    assert(more[rs.len() as int] == r);
    if covered(rs, p) {
        let i = choose|i: int| 0 <= i < rs.len() && (#[trigger] rs[i]).0 <= p < rs[i].1;
        assert(more[i] == rs[i]);
    }
    if covered(more, p) {
        let i = choose|i: int| 0 <= i < more.len() && (#[trigger] more[i]).0 <= p < more[i].1;
        if i < rs.len() {
            assert(more[i] == rs[i]);
        }
    }
}

/// One more range adds the gap before it.
proof fn lemma_gap_push(rs: Seq<(int, int)>, r: (int, int), content: Seq<char>, p: int)
    ensures
        in_blank_gap(rs.push(r), content, p) <==> in_blank_gap(rs, content, p) || (rs.len() > 0
            && rs.last().1 <= p < r.0 && blank_between(content, rs.last().1, r.0)),
{
    let more = rs.push(r);
    assert(more[rs.len() as int] == r);
    if in_blank_gap(rs, content, p) {
        let i = choose|i: int|
            0 < i < rs.len() && rs[i - 1].1 <= p < (#[trigger] rs[i]).0 && blank_between(
                content,
                rs[i - 1].1,
                rs[i].0,
            );
        assert(more[i] == rs[i]);
        assert(more[i - 1] == rs[i - 1]);
    }
    if in_blank_gap(more, content, p) {
        let i = choose|i: int|
            0 < i < more.len() && more[i - 1].1 <= p < (#[trigger] more[i]).0 && blank_between(
                content,
                more[i - 1].1,
                more[i].0,
            );
        assert(more[i - 1] == rs[i - 1]);
        if i < rs.len() {
            assert(more[i] == rs[i]);
        }
    }
}

/// Merging adds the whitespace between two ranges to what is highlighted, and nothing else.
pub proof fn law_merged_bytes(rs: Seq<(int, int)>, content: Seq<char>, p: int)
    requires
        ranges_ordered(rs, content),
    ensures
        covered(merged(rs, content), p) <==> covered(rs, p) || in_blank_gap(rs, content, p),
    decreases rs.len(),
{
    if rs.len() > 0 {
        let rest = rs.drop_last();
        let last = rs.last();
        let before = merged(rest, content);
        assert(rest.push(last) =~= rs);
        assert(ranges_ordered(rest, content));
        law_merged_bytes(rest, content, p);
        lemma_covered_push(rest, last, p);
        lemma_gap_push(rest, last, content, p);
        assert(last == rs[rs.len() - 1]);
        if rs.len() > 1 && blank_between(content, rs[rs.len() - 2].1, last.0) {
            let prev = rs[rs.len() - 2];
            assert(prev == rest.last());
            assert(prev.1 <= last.0 <= last.1);
            lemma_merged_last(rest, content);
            law_merged(rest, content);
            let b = before.last();
            assert(b == before[before.len() - 1]);
            assert(before.drop_last().push(b) =~= before);
            lemma_covered_push(before.drop_last(), b, p);
            lemma_covered_push(before.drop_last(), (b.0, last.1), p);
        } else {
            lemma_covered_push(before, last, p);
            assert(rs.len() > 1 ==> rest.last() == rs[rs.len() - 2]);
        }
    }
}

/// Merging a second time changes nothing.
pub proof fn law_merged_idempotent(rs: Seq<(int, int)>, content: Seq<char>)
    requires
        ranges_ordered(rs, content),
    ensures
        merged(merged(rs, content), content) == merged(rs, content),
{
    law_merged(rs, content);
    lemma_nothing_to_merge(merged(rs, content), content);
}

proof fn lemma_nothing_to_merge(rs: Seq<(int, int)>, content: Seq<char>)
    requires
        forall|j: int|
            0 < j < rs.len() ==> !blank_between(content, rs[j - 1].1, (#[trigger] rs[j]).0),
    ensures
        merged(rs, content) == rs,
    decreases rs.len(),
{
    if rs.len() > 0 {
        let rest = rs.drop_last();
        assert forall|j: int| 0 < j < rest.len() implies !blank_between(
            content,
            rest[j - 1].1,
            (#[trigger] rest[j]).0,
        ) by {
            assert(rest[j] == rs[j]);
        }
        lemma_nothing_to_merge(rest, content);
        assert(rs[rs.len() - 1] == rs.last());
        assert(merged(rs, content) =~= rs);
    } else {
        assert(merged(rs, content) =~= rs);
    }
}

/// The highlighted ranges of a deleted line and of the added line that it is paired with.
pub open spec fn pair_ranges(old: Seq<char>, new: Seq<char>) -> (Seq<(int, int)>, Seq<(int, int)>) {
    let changes = token_changes(tokens_of(old), tokens_of(new));
    (
        merged(changed_ranges(changes, ChangeTag::Delete), old),
        merged(changed_ranges(changes, ChangeTag::Insert), new),
    )
}

/// What holds of two texts whose highlights have been found: the changes between them are made of
/// their tokens, and nothing is highlighted if they are equal.
pub open spec fn pair_compared(old: Seq<char>, new: Seq<char>) -> bool {
    &&& covers_both(old, new)
    &&& old == new ==> pair_ranges(old, new).0.len() == 0 && pair_ranges(old, new).1.len() == 0
}

/// The lines with the line `d` and the line `a` highlighted as a pair.
pub open spec fn highlight_pair(lines: Seq<LineView>, d: int, a: int) -> Seq<LineView> {
    let (dr, ar) = pair_ranges(lines[d].content, lines[a].content);
    lines.update(d, LineView { highlights: dr, ..lines[d] }).update(
        a,
        LineView { highlights: ar, ..lines[a] },
    )
}

/// The highlights of `old` and of `new`, whose tokens `changes` lists.
pub fn merged_highlights(changes: &Vec<TokenChange>, old: &str, new: &str) -> (r: (
    Vec<InlineHighlight>,
    Vec<InlineHighlight>,
))
    requires
        joined(side(change_views(changes@), ChangeTag::Delete)) == old@,
        joined(side(change_views(changes@), ChangeTag::Insert)) == new@,
    ensures
        ranges(r.0@) == merged(changed_ranges(change_views(changes@), ChangeTag::Delete), old@),
        ranges(r.1@) == merged(changed_ranges(change_views(changes@), ChangeTag::Insert), new@),
{
    let ghost views = change_views(changes@);
    let old_len: usize = str_bytes(old);
    let new_len: usize = str_bytes(new);
    let (mut del_highlights, mut add_highlights) = highlights_of(changes);
    proof {
        law_changed_ranges(views, ChangeTag::Delete);
        law_changed_ranges(views, ChangeTag::Insert);
        lemma_ordered_mergeable(ranges(del_highlights@), old@);
        lemma_ordered_mergeable(ranges(add_highlights@), new@);
    }
    merge_whitespace_separated_highlights(&mut del_highlights, old);
    merge_whitespace_separated_highlights(&mut add_highlights, new);
    (del_highlights, add_highlights)
}

proof fn lemma_ordered_mergeable(rs: Seq<(int, int)>, content: Seq<char>)
    requires
        ranges_ordered(rs, content),
    ensures
        mergeable(rs, content),
{
    assert forall|i: int| 0 < i < rs.len() implies {
        &&& rs[i - 1].1 <= (#[trigger] rs[i]).0
        &&& is_char_boundary(encode_utf8(content), rs[i - 1].1)
        &&& is_char_boundary(encode_utf8(content), rs[i].0)
    } by {
        assert(rs[i - 1].1 <= rs[i].0);
    }
}

/// Every token of a list of changes stands on one of the two sides.
proof fn lemma_tokens_from_sides(changes: Seq<(ChangeTag, Seq<char>)>)
    requires
        forall|i: int|
            0 <= i < side(changes, ChangeTag::Delete).len() ==> (#[trigger] side(
                changes,
                ChangeTag::Delete,
            )[i]).len() > 0,
        forall|i: int|
            0 <= i < side(changes, ChangeTag::Insert).len() ==> (#[trigger] side(
                changes,
                ChangeTag::Insert,
            )[i]).len() > 0,
    ensures
        forall|i: int| 0 <= i < changes.len() ==> (#[trigger] changes[i]).1.len() > 0,
    decreases changes.len(),
{
    if changes.len() > 0 {
        let rest = changes.drop_last();
        let last = changes.last();
        let ds = side(changes, ChangeTag::Delete);
        let is = side(changes, ChangeTag::Insert);
        assert forall|i: int| 0 <= i < side(rest, ChangeTag::Delete).len() implies (#[trigger] side(
            rest,
            ChangeTag::Delete,
        )[i]).len() > 0 by {
            assert(ds[i] == side(rest, ChangeTag::Delete)[i]);
        }
        assert forall|i: int| 0 <= i < side(rest, ChangeTag::Insert).len() implies (#[trigger] side(
            rest,
            ChangeTag::Insert,
        )[i]).len() > 0 by {
            assert(is[i] == side(rest, ChangeTag::Insert)[i]);
        }
        lemma_tokens_from_sides(rest);
        assert(last.1.len() > 0) by {
            if on_side(last.0, ChangeTag::Delete) {
                assert(ds[ds.len() - 1] == last.1);
            } else {
                assert(is[is.len() - 1] == last.1);
            }
        }
        assert forall|i: int| 0 <= i < changes.len() implies (#[trigger] changes[i]).1.len() > 0 by {
            if i < rest.len() {
                assert(rest[i] == changes[i]);
            }
        }
    }
}

/// The tokens of two texts are not empty, nor are those of the changes between them.
proof fn lemma_tokens_nonempty(old: Seq<char>, new: Seq<char>)
    requires
        covers_both(old, new),
    ensures
        ({
            let changes = token_changes(tokens_of(old), tokens_of(new));
            forall|i: int| 0 <= i < changes.len() ==> (#[trigger] changes[i]).1.len() > 0
        }),
{
    law_tokens_uniform(old);
    law_tokens_uniform(new);
    assert forall|i: int| 0 <= i < tokens_of(old).len() implies (#[trigger] tokens_of(
        old,
    )[i]).len() > 0 by {
        assert(uniform_token(tokens_of(old)[i]));
    }
    assert forall|i: int| 0 <= i < tokens_of(new).len() implies (#[trigger] tokens_of(
        new,
    )[i]).len() > 0 by {
        assert(uniform_token(tokens_of(new)[i]));
    }
    lemma_tokens_from_sides(token_changes(tokens_of(old), tokens_of(new)));
}

/// Whether two neighbouring ranges always have text between them, and not only whitespace.
pub open spec fn ranges_apart(rs: Seq<(int, int)>, content: Seq<char>) -> bool {
    forall|i: int, j: int|
        0 <= i && j == i + 1 && j < rs.len() ==> (#[trigger] rs[i]).1 < (#[trigger] rs[j]).0
            && !blank_between(content, rs[i].1, rs[j].0)
}

/// The highlights of two texts stand in them in order, none is empty, and between two of them
/// there is something other than whitespace. Only equal texts have none.
pub proof fn law_pair_ranges(old: Seq<char>, new: Seq<char>)
    requires
        covers_both(old, new),
    ensures
        ranges_in(pair_ranges(old, new).0, old),
        ranges_in(pair_ranges(old, new).1, new),
        ranges_apart(pair_ranges(old, new).0, old),
        ranges_apart(pair_ranges(old, new).1, new),
        pair_ranges(old, new).0.len() == 0 && pair_ranges(old, new).1.len() == 0 ==> old == new,
{
    let changes = token_changes(tokens_of(old), tokens_of(new));
    let dr = changed_ranges(changes, ChangeTag::Delete);
    let ir = changed_ranges(changes, ChangeTag::Insert);
    law_tokens_join(old);
    law_tokens_join(new);
    lemma_tokens_nonempty(old, new);
    lemma_side_ranges(changes, ChangeTag::Delete);
    lemma_side_ranges(changes, ChangeTag::Insert);
    if merged(dr, old).len() == 0 && merged(ir, new).len() == 0 {
        if dr.len() > 0 {
            lemma_merged_last(dr, old);
        }
        if ir.len() > 0 {
            lemma_merged_last(ir, new);
        }
        law_unchanged_bytes(changes, ChangeTag::Delete);
        law_unchanged_bytes(changes, ChangeTag::Insert);
        lemma_encode_injective(old, new);
    }
}

/// The merged ranges of one side stand in its text, in order and apart.
proof fn lemma_side_ranges(changes: Seq<(ChangeTag, Seq<char>)>, own: ChangeTag)
    requires
        forall|i: int| 0 <= i < changes.len() ==> (#[trigger] changes[i]).1.len() > 0,
    ensures
        ({
            let content = joined(side(changes, own));
            let rs = merged(changed_ranges(changes, own), content);
            ranges_in(rs, content) && ranges_apart(rs, content)
        }),
{
    let content = joined(side(changes, own));
    let rs = merged(changed_ranges(changes, own), content);
    law_changed_ranges(changes, own);
    law_merged(changed_ranges(changes, own), content);
    assert forall|i: int, j: int| 0 <= i && j == i + 1 && j < rs.len() implies (
    #[trigger] rs[i]).1 < (#[trigger] rs[j]).0 && !blank_between(content, rs[i].1, rs[j].0) by {
        assert(!blank_between(content, rs[j - 1].1, rs[j].0));
        if rs[i].1 == rs[j].0 {
            let nothing = encode_utf8(content).subrange(rs[j].0, rs[j].0);
            assert(nothing =~= Seq::empty());
            assert(text_between(content, rs[j].0, rs[j].0) =~= Seq::empty());
        }
    }
}

/// The text that stands outside some ranges of a text.
pub open spec fn text_outside(content: Seq<char>, rs: Seq<(int, int)>) -> Seq<char> {
    decode_utf8(bytes_outside(encode_utf8(content), rs))
}

/// A text without its whitespace.
pub open spec fn without_blanks(s: Seq<char>) -> Seq<char> {
    s.filter(|c: char| !blank(c))
}

/// Bytes that spell two texts one after the other spell both.
proof fn lemma_decode_concat(a: Seq<u8>, b: Seq<u8>)
    requires
        valid_utf8(a),
        valid_utf8(b),
    ensures
        valid_utf8(a + b),
        decode_utf8(a + b) == decode_utf8(a) + decode_utf8(b),
        without_blanks(decode_utf8(a + b)) == without_blanks(decode_utf8(a)) + without_blanks(
            decode_utf8(b),
        ),
{
    decode_utf8_encode_utf8(a);
    decode_utf8_encode_utf8(b);
    lemma_encode_concat(decode_utf8(a), decode_utf8(b));
    encode_utf8_valid_utf8(decode_utf8(a) + decode_utf8(b));
    encode_utf8_decode_utf8(decode_utf8(a) + decode_utf8(b));
    Seq::filter_distributes_over_add(decode_utf8(a), decode_utf8(b), |c: char| !blank(c));
}

/// The bytes between two character boundaries of a text spell a text.
proof fn lemma_valid_between(content: Seq<char>, start: int, end: int)
    requires
        0 <= start <= end <= byte_len(content),
        is_char_boundary(encode_utf8(content), start),
        is_char_boundary(encode_utf8(content), end),
    ensures
        valid_utf8(encode_utf8(content).subrange(start, end)),
{
    let bytes = encode_utf8(content);
    let head = bytes.subrange(0, end);
    encode_utf8_valid_utf8(content);
    valid_utf8_split(bytes, end);
    lemma_boundary_in_prefix(bytes, start, end);
    valid_utf8_split(head, start);
    assert(head.subrange(start, end) =~= bytes.subrange(start, end));
}

/// A text of nothing but whitespace is nothing without its whitespace.
proof fn lemma_all_blank(s: Seq<char>)
    requires
        forall|i: int| 0 <= i < s.len() ==> blank(#[trigger] s[i]),
    ensures
        without_blanks(s).len() == 0,
    decreases s.len(),
{
    reveal(Seq::filter);
    if s.len() > 0 {
        assert forall|i: int| 0 <= i < s.drop_last().len() implies blank(
            #[trigger] s.drop_last()[i],
        ) by {
            assert(s.drop_last()[i] == s[i]);
        }
        lemma_all_blank(s.drop_last());
        assert(blank(s[s.len() - 1]));
    }
}

/// What the first `p` bytes hold outside some ranges spells a text.
proof fn lemma_outside_valid(rs: Seq<(int, int)>, content: Seq<char>, p: int)
    requires
        ranges_ordered(rs, content),
        0 <= p <= byte_len(content),
        is_char_boundary(encode_utf8(content), p),
        rs.len() > 0 ==> rs.last().1 <= p,
    ensures
        valid_utf8(bytes_outside(encode_utf8(content).take(p), rs)),
    decreases rs.len(),
{
    let all = encode_utf8(content);
    if rs.len() == 0 {
        encode_utf8_valid_utf8(content);
        is_char_boundary_start_end_of_seq(all);
        lemma_valid_between(content, 0, p);
        assert(all.subrange(0, p) =~= all.take(p));
    } else {
        let rest = rs.drop_last();
        let last = rs.last();
        assert(last == rs[rs.len() - 1]);
        assert(ranges_ordered(rest, content));
        if rest.len() > 0 {
            assert(rest.last() == rs[rs.len() - 2]);
        }
        lemma_outside_valid(rest, content, last.0);
        lemma_valid_between(content, last.1, p);
        assert(all.take(p).take(last.0) =~= all.take(last.0));
        assert(all.take(p).skip(last.1) =~= all.subrange(last.1, p));
        lemma_decode_concat(bytes_outside(all.take(last.0), rest), all.subrange(last.1, p));
    }
}

/// Merging takes nothing but whitespace from the first `p` bytes outside the ranges.
proof fn lemma_outside_merged(rs: Seq<(int, int)>, content: Seq<char>, p: int)
    requires
        ranges_ordered(rs, content),
        0 <= p <= byte_len(content),
        is_char_boundary(encode_utf8(content), p),
        rs.len() > 0 ==> rs.last().1 <= p,
    ensures
        ({
            let bytes = encode_utf8(content).take(p);
            let kept = bytes_outside(bytes, rs);
            let left = bytes_outside(bytes, merged(rs, content));
            without_blanks(decode_utf8(left)) == without_blanks(decode_utf8(kept))
        }),
    decreases rs.len(),
{
    let all = encode_utf8(content);
    let bytes = all.take(p);
    if rs.len() == 0 {
        assert(merged(rs, content) =~= rs);
    } else {
        let rest = rs.drop_last();
        let last = rs.last();
        let before = merged(rest, content);
        let m = merged(rs, content);
        let tail = all.subrange(last.1, p);
        let head = all.take(last.0);
        assert(last == rs[rs.len() - 1]);
        assert(ranges_ordered(rest, content));
        if rest.len() > 0 {
            assert(rest.last() == rs[rs.len() - 2]);
            lemma_merged_last(rest, content);
            law_merged(rest, content);
            assert(before.last() == before[before.len() - 1]);
        } else {
            assert(before =~= rest);
        }
        lemma_outside_merged(rest, content, last.0);
        lemma_outside_valid(rest, content, last.0);
        lemma_valid_between(content, last.1, p);
        assert(bytes.take(last.0) =~= head);
        assert(bytes.skip(last.1) =~= tail);
        let kept = bytes_outside(head, rest);
        assert(bytes_outside(bytes, rs) == kept + tail);
        lemma_decode_concat(kept, tail);
        if rs.len() > 1 && blank_between(content, rest.last().1, last.0) {
            let b = before.last();
            let gap = all.subrange(rest.last().1, last.0);
            let first = bytes_outside(all.take(b.0), before.drop_last());
            assert(m.last() == (b.0, last.1));
            assert(m.drop_last() =~= before.drop_last());
            assert(bytes.take(b.0) =~= all.take(b.0));
            assert(bytes_outside(bytes, m) == first + tail);
            assert(head.take(b.0) =~= all.take(b.0));
            assert(head.skip(b.1) =~= gap);
            assert(bytes_outside(head, before) == first + gap);
            if before.len() > 1 {
                assert(before.drop_last().last() == before[before.len() - 2]);
            }
            assert(ranges_ordered(before.drop_last(), content));
            lemma_outside_valid(before.drop_last(), content, b.0);
            lemma_valid_between(content, rest.last().1, last.0);
            lemma_decode_concat(first, gap);
            lemma_decode_concat(first, tail);
            assert(text_between(content, rest.last().1, last.0) == decode_utf8(gap));
            lemma_all_blank(text_between(content, rest.last().1, last.0));
            assert(without_blanks(decode_utf8(first)) + without_blanks(decode_utf8(gap))
                =~= without_blanks(decode_utf8(first)));
        } else {
            assert(m =~= before.push(last));
            assert(m.drop_last() =~= before);
            let left = bytes_outside(head, before);
            lemma_outside_valid(before, content, last.0);
            assert(bytes_outside(bytes, m) == left + tail);
            lemma_decode_concat(left, tail);
        }
    }
}

/// Merging takes nothing but whitespace from what is not highlighted.
pub proof fn law_outside_merged(rs: Seq<(int, int)>, content: Seq<char>)
    requires
        ranges_ordered(rs, content),
    ensures
        without_blanks(text_outside(content, merged(rs, content))) == without_blanks(
            text_outside(content, rs),
        ),
{
    let bytes = encode_utf8(content);
    encode_utf8_valid_utf8(content);
    is_char_boundary_start_end_of_seq(bytes);
    if rs.len() > 0 {
        assert(rs.last() == rs[rs.len() - 1]);
    }
    lemma_outside_merged(rs, content, bytes.len() as int);
    assert(bytes.take(bytes.len() as int) =~= bytes);
}

/// But for whitespace, what is not highlighted is the same in both texts.
pub proof fn law_unhighlighted_text(old: Seq<char>, new: Seq<char>)
    requires
        covers_both(old, new),
    ensures
        without_blanks(text_outside(old, pair_ranges(old, new).0)) == without_blanks(
            text_outside(new, pair_ranges(old, new).1),
        ),
{
    let changes = token_changes(tokens_of(old), tokens_of(new));
    law_tokens_join(old);
    law_tokens_join(new);
    law_changed_ranges(changes, ChangeTag::Delete);
    law_changed_ranges(changes, ChangeTag::Insert);
    law_unchanged_bytes(changes, ChangeTag::Delete);
    law_unchanged_bytes(changes, ChangeTag::Insert);
    law_outside_merged(changed_ranges(changes, ChangeTag::Delete), old);
    law_outside_merged(changed_ranges(changes, ChangeTag::Insert), new);
}

/// The highlights of two texts: the byte ranges of the words of `old` that are not in `new`, and
/// of those of `new` that are not in `old`.
pub fn text_highlights(old: &str, new: &str) -> (r: (Vec<InlineHighlight>, Vec<InlineHighlight>))
    requires
        old@.len() <= MAX_LINE_CHARS,
        new@.len() <= MAX_LINE_CHARS,
    ensures
        (ranges(r.0@), ranges(r.1@)) == pair_ranges(old@, new@),
        ranges_in(ranges(r.0@), old@),
        ranges_in(ranges(r.1@), new@),
        ranges_apart(ranges(r.0@), old@),
        ranges_apart(ranges(r.1@), new@),
        covers_both(old@, new@),
        old@ == new@ <==> r.0@.len() == 0 && r.1@.len() == 0,
{
    let old_tokens: Vec<&str> = tokenize_code(old);
    let new_tokens: Vec<&str> = tokenize_code(new);
    proof {
        law_tokens_count(old@);
        law_tokens_count(new@);
        law_tokens_join(old@);
        law_tokens_join(new@);
    }
    let changes: Vec<TokenChange> = diff_tokens(&old_tokens, &new_tokens);
    let r = merged_highlights(&changes, old, new);
    proof {
        let views = change_views(changes@);
        law_pair_ranges(old@, new@);
        if old@ == new@ {
            assert forall|i: int| 0 <= i < views.len() implies (#[trigger] views[i]).0
                == ChangeTag::Equal by {
                assert(changes@[i].tag == ChangeTag::Equal);
            }
            lemma_no_changes(views, ChangeTag::Delete);
            lemma_no_changes(views, ChangeTag::Insert);
            assert(ranges(r.0@).len() == 0);
            assert(ranges(r.1@).len() == 0);
        }
    }
    r
}

/// Where every token is equal, no range is changed.
proof fn lemma_no_changes(changes: Seq<(ChangeTag, Seq<char>)>, own: ChangeTag)
    requires
        own != ChangeTag::Equal,
        forall|i: int| 0 <= i < changes.len() ==> (#[trigger] changes[i]).0 == ChangeTag::Equal,
    ensures
        changed_ranges(changes, own).len() == 0,
    decreases changes.len(),
{
    if changes.len() > 0 {
        let rest = changes.drop_last();
        assert forall|i: int| 0 <= i < rest.len() implies (#[trigger] rest[i]).0
            == ChangeTag::Equal by {
            assert(rest[i] == changes[i]);
        }
        lemma_no_changes(rest, own);
        assert(changes[changes.len() - 1] == changes.last());
    }
}

/// Compute word-level diff between `lines[del_idx]` (Delete) and
/// `lines[add_idx]` (Add) and store the resulting byte ranges in each.
pub fn compute_pair_highlights(lines: &mut [DiffLine], del_idx: usize, add_idx: usize)
    requires
        del_idx < old(lines)@.len(),
        add_idx < old(lines)@.len(),
        old(lines)@[del_idx as int]@.content.len() <= MAX_LINE_CHARS,
        old(lines)@[add_idx as int]@.content.len() <= MAX_LINE_CHARS,
    ensures
        final(lines)@.len() == old(lines)@.len(),
        line_views(final(lines)@) == highlight_pair(
            line_views(old(lines)@),
            del_idx as int,
            add_idx as int,
        ),
        ranges_in(
            final(lines)@[del_idx as int]@.highlights,
            final(lines)@[del_idx as int]@.content,
        ),
        ranges_in(
            final(lines)@[add_idx as int]@.highlights,
            final(lines)@[add_idx as int]@.content,
        ),
        pair_compared(
            old(lines)@[del_idx as int]@.content,
            old(lines)@[add_idx as int]@.content,
        ),
        old(lines)@[del_idx as int]@.content == old(lines)@[add_idx as int]@.content <==> (
        final(lines)@[del_idx as int]@.highlights.len() == 0
            && final(lines)@[add_idx as int]@.highlights.len() == 0),
{
    let ghost before = line_views(lines@);
    let (del_highlights, add_highlights) = text_highlights(
        &lines[del_idx].content,
        &lines[add_idx].content,
    );
    lines[del_idx].inline_highlights = del_highlights;
    lines[add_idx].inline_highlights = add_highlights;
    assert(line_views(lines@) =~= highlight_pair(before, del_idx as int, add_idx as int));
}

/// The bytes that stand before the token `k` in the text of one side: those of the tokens before it
/// that are tagged as equal or as that side's own.
pub open spec fn bytes_before(
    changes: Seq<(ChangeTag, Seq<char>)>,
    own: ChangeTag,
    k: int,
) -> int {
    encode_utf8(tokens_tagged(changes.take(k), own).flatten()).len() as int
}

/// Whether the byte `p` of the text of one side belongs to a token with that side's own tag.
pub open spec fn in_changed_token(
    changes: Seq<(ChangeTag, Seq<char>)>,
    own: ChangeTag,
    p: int,
) -> bool {
    exists|k: int|
        0 <= k < changes.len() && (#[trigger] changes[k]).0 == own && bytes_before(changes, own, k)
            <= p < bytes_before(changes, own, k) + encode_utf8(changes[k].1).len()
}

/// Whether all tokens of one side that stand between the tokens `i` and `j` are whitespace.
pub open spec fn blank_tokens_between(
    changes: Seq<(ChangeTag, Seq<char>)>,
    own: ChangeTag,
    i: int,
    j: int,
) -> bool {
    forall|m: int, x: int|
        i < m < j && ((#[trigger] changes[m]).0 == ChangeTag::Equal || changes[m].0 == own) && 0
            <= x < changes[m].1.len() ==> blank(#[trigger] changes[m].1[x])
}

/// Whether the byte `p` of the text of one side stands between two tokens with that side's own tag
/// that have nothing but whitespace between them.
pub open spec fn between_changed_tokens(
    changes: Seq<(ChangeTag, Seq<char>)>,
    own: ChangeTag,
    p: int,
) -> bool {
    exists|i: int, j: int|
        0 <= i < j < changes.len() && (#[trigger] changes[i]).0 == own && (#[trigger] changes[j]).0
            == own && bytes_before(changes, own, i) + encode_utf8(changes[i].1).len() <= p
            < bytes_before(changes, own, j) && blank_tokens_between(changes, own, i, j)
}

/// The tokens before a token spell the text before it.
proof fn lemma_bytes_before(changes: Seq<(ChangeTag, Seq<char>)>, own: ChangeTag, k: int)
    requires
        0 <= k <= changes.len(),
    ensures
        bytes_before(changes, own, k) == byte_len(joined(side(changes.take(k), own))),
        k < changes.len() && on_side(changes[k].0, own) ==> bytes_before(changes, own, k + 1)
            == bytes_before(changes, own, k) + byte_len(changes[k].1),
        k < changes.len() && !on_side(changes[k].0, own) ==> bytes_before(changes, own, k + 1)
            == bytes_before(changes, own, k),
{
    law_side(changes.take(k), own);
    law_joined(side(changes.take(k), own));
    if k < changes.len() {
        law_side(changes.take(k + 1), own);
        law_joined(side(changes.take(k + 1), own));
        lemma_side_step(changes, own, k);
    }
}

/// The tokens further on have more bytes before them.
proof fn lemma_bytes_before_grow(
    changes: Seq<(ChangeTag, Seq<char>)>,
    own: ChangeTag,
    i: int,
    j: int,
)
    requires
        0 <= i <= j <= changes.len(),
    ensures
        bytes_before(changes, own, i) <= bytes_before(changes, own, j),
    decreases j - i,
{
    if i < j {
        lemma_bytes_before(changes, own, i);
        lemma_bytes_before_grow(changes, own, i + 1, j);
    }
}

/// There are as many ranges as changed tokens.
pub proof fn law_range_count(changes: Seq<(ChangeTag, Seq<char>)>, own: ChangeTag)
    ensures
        changed_ranges(changes, own).len() == count_tagged(changes, own),
    decreases changes.len(),
{
    lemma_count_tagged(changes, own);
    if changes.len() > 0 {
        law_range_count(changes.drop_last(), own);
    }
}

/// The range of a changed token has its bytes, and comes after those of the changed tokens before
/// it.
pub proof fn law_token_range(changes: Seq<(ChangeTag, Seq<char>)>, own: ChangeTag, k: int)
    requires
        0 <= k < changes.len(),
        changes[k].0 == own,
    ensures
        count_tagged(changes.take(k), own) < changed_ranges(changes, own).len(),
        changed_ranges(changes, own)[count_tagged(changes.take(k), own) as int] == (
            bytes_before(changes, own, k),
            bytes_before(changes, own, k) + encode_utf8(changes[k].1).len(),
        ),
    decreases changes.len(),
{
    let n = changes.len() - 1;
    let rest = changes.drop_last();
    assert(changes.take(n) =~= rest);
    law_range_count(changes, own);
    law_range_count(rest, own);
    if k < n {
        assert(rest.take(k) =~= changes.take(k));
        law_token_range(rest, own, k);
        assert(bytes_before(rest, own, k) == bytes_before(changes, own, k));
    } else {
        lemma_bytes_before(changes, own, n);
    }
}

/// A byte belongs to a changed token exactly if the range of one holds it.
proof fn lemma_changed_bytes(changes: Seq<(ChangeTag, Seq<char>)>, own: ChangeTag, p: int)
    ensures
        covered(changed_ranges(changes, own), p) <==> in_changed_token(changes, own, p),
    decreases changes.len(),
{
    let rs = changed_ranges(changes, own);
    if changes.len() > 0 {
        let n = changes.len() - 1;
        let rest = changes.drop_last();
        assert(changes.take(n) =~= rest);
        lemma_changed_bytes(rest, own, p);
        lemma_bytes_before(changes, own, n);
        let start = bytes_before(changes, own, n);
        let r = (start, start + byte_len(changes[n].1) as int);
        assert forall|k: int| 0 <= k < n implies bytes_before(rest, own, k) == #[trigger]
            bytes_before(changes, own, k) && rest[k] == changes[k] by {
            assert(rest.take(k) =~= changes.take(k));
        }
        if in_changed_token(rest, own, p) {
            let k = choose|k: int|
                0 <= k < rest.len() && (#[trigger] rest[k]).0 == own && bytes_before(rest, own, k)
                    <= p < bytes_before(rest, own, k) + encode_utf8(rest[k].1).len();
            assert(bytes_before(rest, own, k) == bytes_before(changes, own, k));
            assert(changes[k].0 == own);
        }
        if in_changed_token(changes, own, p) {
            let k = choose|k: int|
                0 <= k < changes.len() && (#[trigger] changes[k]).0 == own && bytes_before(
                    changes,
                    own,
                    k,
                ) <= p < bytes_before(changes, own, k) + encode_utf8(changes[k].1).len();
            if k < n {
                assert(bytes_before(rest, own, k) == bytes_before(changes, own, k));
                assert(rest[k].0 == own);
            }
        }
        if changes[n].0 == own {
            assert(rs =~= changed_ranges(rest, own).push(r));
            lemma_covered_push(changed_ranges(rest, own), r, p);
        }
    }
}

/// One side of two lists of changes is the sides of both.
proof fn lemma_side_concat(
    a: Seq<(ChangeTag, Seq<char>)>,
    b: Seq<(ChangeTag, Seq<char>)>,
    own: ChangeTag,
)
    ensures
        joined(side(a + b, own)) == joined(side(a, own)) + joined(side(b, own)),
    decreases b.len(),
{
    if b.len() == 0 {
        assert(a + b =~= a);
        assert(joined(side(a, own)) + joined(side(b, own)) =~= joined(side(a, own)));
    } else {
        let n = (a + b).len() - 1;
        assert((a + b).drop_last() =~= a + b.drop_last());
        lemma_side_concat(a, b.drop_last(), own);
        assert((a + b).take(n) =~= a + b.drop_last());
        assert((a + b).take(n + 1) =~= a + b);
        assert(b.take(b.len() - 1) =~= b.drop_last());
        assert(b.take(b.len() as int) =~= b);
        lemma_side_step(a + b, own, n);
        lemma_side_step(b, own, b.len() - 1);
        assert((a + b)[n] == b[b.len() - 1]);
        assert(joined(side(a + b, own)) =~= joined(side(a, own)) + joined(side(b, own)));
    }
}

/// The text from one token to another is what the tokens from the one to the other spell.
proof fn lemma_text_of_tokens(
    changes: Seq<(ChangeTag, Seq<char>)>,
    own: ChangeTag,
    i: int,
    j: int,
)
    requires
        0 <= i <= j <= changes.len(),
    ensures
        text_between(
            joined(side(changes, own)),
            bytes_before(changes, own, i),
            bytes_before(changes, own, j),
        ) == joined(side(changes.subrange(i, j), own)),
{
    let a = changes.take(i);
    let b = changes.subrange(i, j);
    let c = changes.skip(j);
    let x = joined(side(a, own));
    let y = joined(side(b, own));
    let z = joined(side(c, own));
    assert(a + b =~= changes.take(j));
    assert(changes.take(j) + c =~= changes);
    lemma_side_concat(a, b, own);
    lemma_side_concat(changes.take(j), c, own);
    lemma_bytes_before(changes, own, i);
    lemma_bytes_before(changes, own, j);
    lemma_encode_concat(x, y);
    lemma_encode_concat(x + y, z);
    assert(encode_utf8(x + y + z).subrange(byte_len(x) as int, byte_len(x + y) as int)
        =~= encode_utf8(y));
    encode_utf8_decode_utf8(y);
}

/// A text is whitespace exactly if all its tokens are.
proof fn lemma_blank_side(changes: Seq<(ChangeTag, Seq<char>)>, own: ChangeTag)
    ensures
        (forall|i: int|
            0 <= i < joined(side(changes, own)).len() ==> blank(
                #[trigger] joined(side(changes, own))[i],
            )) <==> blank_tokens_between(changes, own, -1, changes.len() as int),
    decreases changes.len(),
{
    if changes.len() > 0 {
        let n = changes.len() - 1;
        let rest = changes.drop_last();
        let text = joined(side(changes, own));
        let before = joined(side(rest, own));
        let token = changes[n].1;
        assert(changes.take(n) =~= rest);
        assert(changes.take(n + 1) =~= changes);
        lemma_side_step(changes, own, n);
        lemma_blank_side(rest, own);
        if blank_tokens_between(changes, own, -1, changes.len() as int) {
            assert forall|m: int, x: int|
                -1 < m < n && ((#[trigger] rest[m]).0 == ChangeTag::Equal || rest[m].0 == own) && 0
                    <= x < rest[m].1.len() implies blank(#[trigger] rest[m].1[x]) by {
                assert(changes[m] == rest[m]);
                assert(blank(changes[m].1[x]));
            }
            assert forall|i: int| 0 <= i < text.len() implies blank(#[trigger] text[i]) by {
                if i < before.len() {
                    assert(text[i] == before[i]);
                } else {
                    assert(text[i] == changes[n].1[i - before.len()]);
                }
            }
        }
        if forall|i: int| 0 <= i < text.len() ==> blank(#[trigger] text[i]) {
            assert forall|i: int| 0 <= i < before.len() implies blank(#[trigger] before[i]) by {
                assert(text[i] == before[i]);
            }
            assert forall|m: int, x: int|
                -1 < m < changes.len() && ((#[trigger] changes[m]).0 == ChangeTag::Equal
                    || changes[m].0 == own) && 0 <= x < changes[m].1.len() implies blank(
                #[trigger] changes[m].1[x],
            ) by {
                if m < n {
                    assert(rest[m] == changes[m]);
                    assert(blank(rest[m].1[x]));
                } else {
                    assert(text[before.len() + x] == token[x]);
                }
            }
        }
    }
}

/// There is nothing but whitespace between two tokens exactly if all tokens between them are
/// whitespace.
proof fn lemma_blank_gap(changes: Seq<(ChangeTag, Seq<char>)>, own: ChangeTag, i: int, j: int)
    requires
        0 <= i < j < changes.len(),
        changes[i].0 == own,
    ensures
        bytes_before(changes, own, i + 1) == bytes_before(changes, own, i) + byte_len(changes[i].1),
        blank_between(
            joined(side(changes, own)),
            bytes_before(changes, own, i + 1),
            bytes_before(changes, own, j),
        ) <==> blank_tokens_between(changes, own, i, j),
{
    let part = changes.subrange(i + 1, j);
    lemma_bytes_before(changes, own, i);
    lemma_text_of_tokens(changes, own, i + 1, j);
    lemma_blank_side(part, own);
    if blank_tokens_between(changes, own, i, j) {
        assert forall|m: int, x: int|
            -1 < m < part.len() && ((#[trigger] part[m]).0 == ChangeTag::Equal || part[m].0 == own)
                && 0 <= x < part[m].1.len() implies blank(#[trigger] part[m].1[x]) by {
            assert(part[m] == changes[i + 1 + m]);
            assert(blank(changes[i + 1 + m].1[x]));
        }
    }
    if blank_tokens_between(part, own, -1, part.len() as int) {
        assert forall|m: int, x: int|
            i < m < j && ((#[trigger] changes[m]).0 == ChangeTag::Equal || changes[m].0 == own) && 0
                <= x < changes[m].1.len() implies blank(#[trigger] changes[m].1[x]) by {
            assert(part[m - i - 1] == changes[m]);
            assert(blank(part[m - i - 1].1[x]));
        }
    }
}

/// Every range is that of a changed token.
proof fn lemma_range_token(changes: Seq<(ChangeTag, Seq<char>)>, own: ChangeTag, x: int) -> (k: int)
    requires
        0 <= x < changed_ranges(changes, own).len(),
    ensures
        0 <= k < changes.len(),
        changes[k].0 == own,
        count_tagged(changes.take(k), own) == x,
    decreases changes.len(),
{
    let n = changes.len() - 1;
    let rest = changes.drop_last();
    assert(changes.take(n) =~= rest);
    if x < changed_ranges(rest, own).len() {
        let k = lemma_range_token(rest, own, x);
        assert(rest.take(k) =~= changes.take(k));
        assert(rest[k] == changes[k]);
        k
    } else {
        law_range_count(rest, own);
        n
    }
}

/// The count of changed tokens grows with the tokens, and stays where none is changed.
proof fn lemma_count_grows(
    changes: Seq<(ChangeTag, Seq<char>)>,
    own: ChangeTag,
    i: int,
    j: int,
)
    requires
        0 <= i <= j <= changes.len(),
    ensures
        count_tagged(changes.take(i), own) <= count_tagged(changes.take(j), own),
        (forall|k: int| i <= k < j ==> (#[trigger] changes[k]).0 != own) ==> count_tagged(
            changes.take(i),
            own,
        ) == count_tagged(changes.take(j), own),
    decreases j - i,
{
    if i < j {
        lemma_count_grows(changes, own, i, j - 1);
        lemma_count_tagged(changes.take(j), own);
        assert(changes.take(j).drop_last() =~= changes.take(j - 1));
        assert(changes.take(j).last() == changes[j - 1]);
    }
}

/// A whitespace gap between two ranges is one between two changed tokens.
proof fn lemma_gap_of_tokens(changes: Seq<(ChangeTag, Seq<char>)>, own: ChangeTag, p: int)
    requires
        in_blank_gap(changed_ranges(changes, own), joined(side(changes, own)), p),
    ensures
        between_changed_tokens(changes, own, p),
{
    let rs = changed_ranges(changes, own);
    let content = joined(side(changes, own));
    let x = choose|x: int|
        0 < x < rs.len() && rs[x - 1].1 <= p < (#[trigger] rs[x]).0 && blank_between(
            content,
            rs[x - 1].1,
            rs[x].0,
        );
    let i = lemma_range_token(changes, own, x - 1);
    let j = lemma_range_token(changes, own, x);
    law_token_range(changes, own, i);
    law_token_range(changes, own, j);
    if j <= i {
        lemma_count_grows(changes, own, j, i);
    }
    lemma_blank_gap(changes, own, i, j);
    assert(changes[i].0 == own && changes[j].0 == own);
}

/// A byte between two changed tokens with whitespace between them is one of a changed token or in a
/// whitespace gap between two ranges.
proof fn lemma_tokens_of_gap(
    changes: Seq<(ChangeTag, Seq<char>)>,
    own: ChangeTag,
    i: int,
    j: int,
    p: int,
)
    requires
        0 <= i < j < changes.len(),
        changes[i].0 == own,
        changes[j].0 == own,
        bytes_before(changes, own, i) + byte_len(changes[i].1) <= p < bytes_before(changes, own, j),
        blank_tokens_between(changes, own, i, j),
    ensures
        in_changed_token(changes, own, p) || in_blank_gap(
            changed_ranges(changes, own),
            joined(side(changes, own)),
            p,
        ),
    decreases j - i,
{
    let rs = changed_ranges(changes, own);
    if exists|k: int| i < k < j && (#[trigger] changes[k]).0 == own {
        let k = choose|k: int| i < k < j && (#[trigger] changes[k]).0 == own;
        if p < bytes_before(changes, own, k) {
            assert(blank_tokens_between(changes, own, i, k));
            lemma_tokens_of_gap(changes, own, i, k, p);
        } else if p >= bytes_before(changes, own, k) + byte_len(changes[k].1) {
            assert(blank_tokens_between(changes, own, k, j));
            lemma_tokens_of_gap(changes, own, k, j, p);
        }
    } else {
        let x = count_tagged(changes.take(i), own) as int;
        law_token_range(changes, own, i);
        law_token_range(changes, own, j);
        lemma_count_tagged(changes.take(i + 1), own);
        assert(changes.take(i + 1).drop_last() =~= changes.take(i));
        assert(changes.take(i + 1).last() == changes[i]);
        lemma_count_grows(changes, own, i + 1, j);
        lemma_blank_gap(changes, own, i, j);
        assert(rs[x + 1 - 1] == rs[x]);
        assert(rs[x + 1].0 == bytes_before(changes, own, j));
    }
}

/// A byte is highlighted if and only if it belongs to a changed token or stands between two changed
/// tokens that have nothing but whitespace between them.
pub proof fn law_merged_tokens(changes: Seq<(ChangeTag, Seq<char>)>, own: ChangeTag, p: int)
    requires
        own != ChangeTag::Equal,
    ensures
        (exists|i: int|
            0 <= i < merged(changed_ranges(changes, own), joined(side(changes, own))).len() && (
            #[trigger] merged(changed_ranges(changes, own), joined(side(changes, own)))[i]).0 <= p
                < merged(changed_ranges(changes, own), joined(side(changes, own)))[i].1)
            <==> in_changed_token(changes, own, p) || between_changed_tokens(changes, own, p),
{
    let rs = changed_ranges(changes, own);
    let content = joined(side(changes, own));
    law_changed_ranges(changes, own);
    law_merged_bytes(rs, content, p);
    lemma_changed_bytes(changes, own, p);
    if in_blank_gap(rs, content, p) {
        lemma_gap_of_tokens(changes, own, p);
    }
    if between_changed_tokens(changes, own, p) {
        let (i, j) = choose|i: int, j: int|
            0 <= i < j < changes.len() && (#[trigger] changes[i]).0 == own && (
            #[trigger] changes[j]).0 == own && bytes_before(changes, own, i) + encode_utf8(
                changes[i].1,
            ).len() <= p < bytes_before(changes, own, j) && blank_tokens_between(
                changes,
                own,
                i,
                j,
            );
        lemma_tokens_of_gap(changes, own, i, j, p);
    }
    assert(covered(merged(rs, content), p) <==> in_changed_token(changes, own, p)
        || between_changed_tokens(changes, own, p));
}

/// A byte of a text is highlighted if and only if it belongs to a token that the other text does
/// not have there, or stands between two such tokens with nothing but whitespace between them.
pub proof fn law_highlighted_bytes(old: Seq<char>, new: Seq<char>, p: int)
    requires
        side(token_changes(tokens_of(old), tokens_of(new)), ChangeTag::Delete) == tokens_of(old),
        side(token_changes(tokens_of(old), tokens_of(new)), ChangeTag::Insert) == tokens_of(new),
    ensures
        ({
            let changes = token_changes(tokens_of(old), tokens_of(new));
            &&& (exists|i: int|
                0 <= i < pair_ranges(old, new).0.len() && (#[trigger] pair_ranges(old, new).0[i]).0
                    <= p < pair_ranges(old, new).0[i].1) <==> in_changed_token(
                changes,
                ChangeTag::Delete,
                p,
            ) || between_changed_tokens(changes, ChangeTag::Delete, p)
            &&& (exists|i: int|
                0 <= i < pair_ranges(old, new).1.len() && (#[trigger] pair_ranges(old, new).1[i]).0
                    <= p < pair_ranges(old, new).1[i].1) <==> in_changed_token(
                changes,
                ChangeTag::Insert,
                p,
            ) || between_changed_tokens(changes, ChangeTag::Insert, p)
        }),
{
    let changes = token_changes(tokens_of(old), tokens_of(new));
    law_tokens_join(old);
    law_tokens_join(new);
    law_merged_tokens(changes, ChangeTag::Delete, p);
    law_merged_tokens(changes, ChangeTag::Insert, p);
    assert(pair_ranges(old, new).0 == merged(changed_ranges(changes, ChangeTag::Delete), old));
    assert(pair_ranges(old, new).1 == merged(changed_ranges(changes, ChangeTag::Insert), new));
}

/// No byte of a token that is equal in both texts is highlighted if the token is not whitespace.
pub proof fn law_equal_not_highlighted(
    changes: Seq<(ChangeTag, Seq<char>)>,
    own: ChangeTag,
    k: int,
    x: int,
    p: int,
)
    requires
        own != ChangeTag::Equal,
        0 <= k < changes.len(),
        changes[k].0 == ChangeTag::Equal,
        0 <= x < changes[k].1.len(),
        !blank(changes[k].1[x]),
        bytes_before(changes, own, k) <= p < bytes_before(changes, own, k) + encode_utf8(
            changes[k].1,
        ).len(),
    ensures
        forall|i: int|
            0 <= i < merged(changed_ranges(changes, own), joined(side(changes, own))).len() ==> !((
            #[trigger] merged(changed_ranges(changes, own), joined(side(changes, own)))[i]).0 <= p
                < merged(changed_ranges(changes, own), joined(side(changes, own)))[i].1),
{
    law_merged_tokens(changes, own, p);
    lemma_bytes_before(changes, own, k);
    if in_changed_token(changes, own, p) {
        let m = choose|m: int|
            0 <= m < changes.len() && (#[trigger] changes[m]).0 == own && bytes_before(
                changes,
                own,
                m,
            ) <= p < bytes_before(changes, own, m) + encode_utf8(changes[m].1).len();
        lemma_bytes_before(changes, own, m);
        if m < k {
            lemma_bytes_before_grow(changes, own, m + 1, k);
        } else {
            lemma_bytes_before_grow(changes, own, k + 1, m);
        }
    }
    if between_changed_tokens(changes, own, p) {
        let (i, j) = choose|i: int, j: int|
            0 <= i < j < changes.len() && (#[trigger] changes[i]).0 == own && (
            #[trigger] changes[j]).0 == own && bytes_before(changes, own, i) + encode_utf8(
                changes[i].1,
            ).len() <= p < bytes_before(changes, own, j) && blank_tokens_between(
                changes,
                own,
                i,
                j,
            );
        if k < i {
            lemma_bytes_before_grow(changes, own, k + 1, i);
        }
        if j < k {
            lemma_bytes_before_grow(changes, own, j, k);
        }
        assert(changes[k].0 == ChangeTag::Equal);
        assert(blank(changes[k].1[x]));
    }
}

/// What stands between two bytes of a text is blank exactly if every character there is.
pub proof fn law_blank_between(content: Seq<char>, end: int, start: int)
    ensures
        blank_between(content, end, start) <==> forall|x: int|
            0 <= x < decode_utf8(encode_utf8(content).subrange(end, start)).len() ==> blank(
                #[trigger] decode_utf8(encode_utf8(content).subrange(end, start))[x],
            ),
{
    assert(text_between(content, end, start) == decode_utf8(
        encode_utf8(content).subrange(end, start),
    ));
}

/// How many of the first `i` gaps between ranges hold anything but whitespace.
pub open spec fn filled_gaps(rs: Seq<(int, int)>, content: Seq<char>, i: int) -> nat
    decreases i,
{
    if i <= 0 {
        0
    } else {
        filled_gaps(rs, content, i - 1) + if blank_between(content, rs[i - 1].1, rs[i].0) {
            0nat
        } else {
            1nat
        }
    }
}

/// Ranges are made one exactly across the gaps that hold only whitespace: there is a merged range
/// more than there are other gaps, and each starts with the first of its ranges and ends with the
/// last.
pub proof fn law_merged_groups(rs: Seq<(int, int)>, content: Seq<char>, i: int)
    requires
        0 <= i < rs.len(),
    ensures
        merged(rs, content).len() == filled_gaps(rs, content, rs.len() - 1) + 1,
        filled_gaps(rs, content, i) < merged(rs, content).len(),
        i == 0 || !blank_between(content, rs[i - 1].1, rs[i].0) ==> merged(
            rs,
            content,
        )[filled_gaps(rs, content, i) as int].0 == rs[i].0,
        i == rs.len() - 1 || !blank_between(content, rs[i].1, rs[i + 1].0) ==> merged(
            rs,
            content,
        )[filled_gaps(rs, content, i) as int].1 == rs[i].1,
    decreases rs.len(),
{
    let rest = rs.drop_last();
    let before = merged(rest, content);
    let n = rs.len() - 1;
    if n == 0 {
        assert(rest =~= Seq::empty());
        assert(before =~= Seq::empty());
    } else {
        lemma_filled_gaps(rs, content, n - 1);
        lemma_filled_gaps(rs, content, i);
        law_merged_groups(rest, content, n - 1);
        lemma_merged_last(rest, content);
        if i < n {
            law_merged_groups(rest, content, i);
            lemma_filled_gaps_grow(rs, content, i, n - 1);
        }
    }
}

/// The gaps of the first ranges are those of all ranges.
proof fn lemma_filled_gaps(rs: Seq<(int, int)>, content: Seq<char>, i: int)
    requires
        0 < rs.len(),
    ensures
        i < rs.len() - 1 ==> filled_gaps(rs.drop_last(), content, i) == filled_gaps(rs, content, i),
    decreases i,
{
    if 0 < i < rs.len() - 1 {
        lemma_filled_gaps(rs, content, i - 1);
    }
}

/// More gaps do not hold less, and a filled gap more is one more.
proof fn lemma_filled_gaps_grow(rs: Seq<(int, int)>, content: Seq<char>, i: int, j: int)
    requires
        0 <= i <= j < rs.len(),
    ensures
        filled_gaps(rs, content, i) <= filled_gaps(rs, content, j),
        i < j && !blank_between(content, rs[i].1, rs[i + 1].0) ==> filled_gaps(rs, content, i)
            < filled_gaps(rs, content, j),
    decreases j - i,
{
    if i < j {
        lemma_filled_gaps_grow(rs, content, i + 1, j);
    }
}

/// Highlighting a pair gives each of its lines the ranges of its own text and changes nothing else.
pub proof fn law_highlight_pair(lines: Seq<LineView>, d: int, a: int, i: int)
    requires
        0 <= d < lines.len(),
        0 <= a < lines.len(),
        d != a,
        0 <= i < lines.len(),
    ensures
        highlight_pair(lines, d, a).len() == lines.len(),
        highlight_pair(lines, d, a)[i].content == lines[i].content,
        highlight_pair(lines, d, a)[i].line_type == lines[i].line_type,
        highlight_pair(lines, d, a)[i].position == lines[i].position,
        i == d ==> highlight_pair(lines, d, a)[i].highlights == pair_ranges(
            lines[d].content,
            lines[a].content,
        ).0,
        i == a ==> highlight_pair(lines, d, a)[i].highlights == pair_ranges(
            lines[d].content,
            lines[a].content,
        ).1,
        i != d && i != a ==> highlight_pair(lines, d, a)[i].highlights == lines[i].highlights,
{
}

} // verus!
