//! The diff of a file, put together from the lines of a patch.
use crate::hash::{header_hash_in, header_hash_of, native_byte_order, ByteOrder};
use crate::highlight::pair_compared;
use crate::inline::{
    add_inline_highlights, is_paired, law_pairs, law_with_highlights, lemma_pairs_from_same_text,
    pairs_compared, pairs_from, same_text, with_highlights,
};
use crate::line::{
    comparable, line_type_of, line_views, patch_views, position_of, ranges, ranges_in, DiffLine,
    DiffLinePosition, DiffLineType, HunkHeader, InlineHighlight, LineView, PatchLine,
    PatchLineView, MAX_LINE_CHARS,
};
use crate::text::{boxed, from_utf8_lossy, text_of, trim_newlines, trimmed};
use easy_cast::Conv;
use vstd::prelude::*;

verus! {

/// single diff hunk
#[derive(Default, Hash, Debug)]
pub struct Hunk {
    /// hash of the hunk header
    pub header_hash: u64,
    /// list of `DiffLine`s
    pub lines: Vec<DiffLine>,
}

/// The contents of a [`Hunk`].
pub struct HunkView {
    pub header_hash: u64,
    pub lines: Seq<LineView>,
}

impl View for Hunk {
    type V = HunkView;

    open spec fn view(&self) -> HunkView {
        HunkView { header_hash: self.header_hash, lines: line_views(self.lines@) }
    }
}

impl Clone for Hunk {
    fn clone(&self) -> (r: Self)
        ensures
            r@ == self@,
    {
        let lines: Vec<DiffLine> = self.lines.clone();
        assert(line_views(lines@) =~= line_views(self.lines@));
        Hunk { header_hash: self.header_hash, lines }
    }
}

/// The contents of a list of hunks.
pub open spec fn hunk_views(hunks: Seq<Hunk>) -> Seq<HunkView> {
    Seq::new(hunks.len(), |i: int| hunks[i]@)
}

/// collection of hunks, sum of all diff lines
#[derive(Default, Hash, Debug)]
pub struct FileDiff {
    /// list of hunks
    pub hunks: Vec<Hunk>,
    /// lines total summed up over hunks
    pub lines: usize,
    /// whether the file is new and not tracked
    pub untracked: bool,
    /// old and new file size in bytes
    pub sizes: (u64, u64),
    /// size delta in bytes
    pub size_delta: i64,
}

/// The contents of a [`FileDiff`].
pub struct FileDiffView {
    pub hunks: Seq<HunkView>,
    pub lines: nat,
    pub untracked: bool,
    pub sizes: (u64, u64),
    pub size_delta: int,
}

/// The lines of all hunks, in order.
pub open spec fn all_lines(hunks: Seq<HunkView>) -> Seq<LineView>
    decreases hunks.len(),
{
    if hunks.len() == 0 {
        Seq::empty()
    } else {
        all_lines(hunks.drop_last()) + hunks.last().lines
    }
}

/// Whether the highlights of every line of a hunk stand in the text of the line, in order, none of
/// them empty, from character boundary to character boundary.
pub open spec fn highlights_fit(hunk: HunkView) -> bool {
    forall|i: int|
        0 <= i < hunk.lines.len() ==> ranges_in(
            (#[trigger] hunk.lines[i]).highlights,
            hunk.lines[i].content,
        )
}

/// Whether the pairs of deleted and added lines of every hunk have been compared.
pub open spec fn hunks_compared(hunks: Seq<HunkView>) -> bool {
    forall|k: int|
        0 <= k < hunks.len() ==> pairs_compared(
            (#[trigger] hunks[k]).lines,
            pairs_from(hunks[k].lines, 0),
        )
}

impl FileDiffView {
    /// Whether the number of lines is that of all hunks together, the size delta is the difference
    /// of the sizes, and the highlights stand in their lines.
    pub open spec fn well_formed(self) -> bool {
        &&& self.lines == all_lines(self.hunks).len()
        &&& self.size_delta == self.sizes.1 - self.sizes.0
        &&& forall|k: int| 0 <= k < self.hunks.len() ==> highlights_fit(#[trigger] self.hunks[k])
    }
}

impl View for FileDiff {
    type V = FileDiffView;

    open spec fn view(&self) -> FileDiffView {
        FileDiffView {
            hunks: hunk_views(self.hunks@),
            lines: self.lines as nat,
            untracked: self.untracked,
            sizes: self.sizes,
            size_delta: self.size_delta as int,
        }
    }
}

impl Clone for FileDiff {
    fn clone(&self) -> (r: Self)
        ensures
            r@ == self@,
    {
        let hunks: Vec<Hunk> = self.hunks.clone();
        assert(hunk_views(hunks@) =~= hunk_views(self.hunks@));
        FileDiff {
            hunks,
            lines: self.lines,
            untracked: self.untracked,
            sizes: self.sizes,
            size_delta: self.size_delta,
        }
    }
}

/// The line of a diff that shows a line of a patch: its text without the newlines around it, and
/// no highlights yet.
pub open spec fn line_of(line: PatchLineView) -> LineView {
    LineView {
        content: trimmed(text_of(line.content)),
        line_type: line_type_of(line.origin),
        position: position_of(line),
        highlights: Seq::empty(),
    }
}

/// Makes the line of a diff that shows `line`.
pub fn diff_line(line: &PatchLine) -> (r: DiffLine)
    ensures
        r@ == line_of(line@),
        r@.content.len() <= line.content@.len(),
        r.content@ == trimmed(text_of(line.content@)),
        r.position.old_lineno == line.old_lineno,
        r.position.new_lineno == line.new_lineno,
        r.line_type == DiffLineType::Header <==> line.origin == 'H',
        r.line_type == DiffLineType::Delete <==> line.origin == '-' || line.origin == '<',
        r.line_type == DiffLineType::Add <==> line.origin == '+' || line.origin == '>',
        r.inline_highlights@.len() == 0,
{
    let text: String = from_utf8_lossy(line.content.as_slice());
    let inline_highlights: Vec<InlineHighlight> = Vec::new();
    assert(ranges(inline_highlights@) =~= Seq::empty());
    DiffLine {
        content: boxed(trim_newlines(text.as_str())),
        line_type: DiffLineType::from(line.origin),
        position: DiffLinePosition::from(line),
        inline_highlights,
    }
}

/// The lines of a patch by hunk: lines that belong to no hunk are left out, and a line starts a
/// new group where its hunk header differs from that of the group before it.
pub open spec fn hunk_groups(lines: Seq<PatchLineView>) -> Seq<(HunkHeader, Seq<LineView>)>
    decreases lines.len(),
{
    if lines.len() == 0 {
        Seq::empty()
    } else {
        let before = hunk_groups(lines.drop_last());
        let line = line_of(lines.last());
        match lines.last().hunk {
            None => before,
            Some(header) => if before.len() > 0 && before.last().0 == header {
                before.drop_last().push((header, before.last().1.push(line)))
            } else {
                before.push((header, seq![line]))
            },
        }
    }
}

/// The hunk that shows a group of lines.
pub open spec fn hunk_of(group: (HunkHeader, Seq<LineView>), order: ByteOrder) -> HunkView {
    HunkView { header_hash: header_hash_of(group.0, order), lines: with_highlights(group.1) }
}

/// The hunks that show groups of lines.
pub open spec fn hunks_of(groups: Seq<(HunkHeader, Seq<LineView>)>, order: ByteOrder) -> Seq<
    HunkView,
> {
    Seq::new(groups.len(), |i: int| hunk_of(groups[i], order))
}

/// The lines of a patch that belong to a hunk, as they are shown.
pub open spec fn shown_lines(lines: Seq<PatchLineView>) -> Seq<LineView>
    decreases lines.len(),
{
    if lines.len() == 0 {
        Seq::empty()
    } else {
        let before = shown_lines(lines.drop_last());
        if lines.last().hunk is Some {
            before.push(line_of(lines.last()))
        } else {
            before
        }
    }
}

/// The file sizes that come with the last line of a patch.
pub open spec fn file_sizes(lines: Seq<PatchLineView>) -> (u64, u64) {
    if lines.len() == 0 {
        (0, 0)
    } else {
        (lines.last().old_size, lines.last().new_size)
    }
}

/// The file diff that shows the lines of a patch.
pub open spec fn file_diff_of(
    lines: Seq<PatchLineView>,
    untracked: bool,
    order: ByteOrder,
) -> FileDiffView {
    FileDiffView {
        hunks: hunks_of(hunk_groups(lines), order),
        lines: shown_lines(lines).len(),
        untracked,
        sizes: file_sizes(lines),
        size_delta: file_sizes(lines).1 - file_sizes(lines).0,
    }
}

/// Whether `diff` shows the lines of a patch, its hunk headers hashed in the one or in the other
/// byte order.
pub open spec fn shows_patch(
    diff: FileDiffView,
    lines: Seq<PatchLineView>,
    untracked: bool,
) -> bool {
    ||| diff == file_diff_of(lines, untracked, ByteOrder::Little)
    ||| diff == file_diff_of(lines, untracked, ByteOrder::Big)
}

/// Whether the file sizes of every line of a patch can be counted with 63 bits and the lines in
/// hunks can be compared with each other.
pub open spec fn within_limits(lines: Seq<PatchLineView>) -> bool {
    forall|i: int| 0 <= i < lines.len() ==> line_within_limits(#[trigger] lines[i])
}

/// What [`within_limits`] asks of one line.
pub open spec fn line_within_limits(line: PatchLineView) -> bool {
    &&& line.old_size <= i64::MAX
    &&& line.new_size <= i64::MAX
    &&& line.hunk is Some ==> line.content.len() <= MAX_LINE_CHARS
}

/// Whether no line has highlights yet.
pub open spec fn unhighlighted(lines: Seq<LineView>) -> bool {
    forall|i: int| 0 <= i < lines.len() ==> (#[trigger] lines[i]).highlights.len() == 0
}

/// Tests the limits of [`raw_diff_to_file_diff`].
pub fn fits_limits(lines: &Vec<PatchLine>) -> (r: bool)
    ensures
        r == within_limits(patch_views(lines@)),
        r <==> forall|i: int|
            0 <= i < lines@.len() ==> {
                &&& (#[trigger] lines@[i]).old_size <= 0x7fff_ffff_ffff_ffff
                &&& lines@[i].new_size <= 0x7fff_ffff_ffff_ffff
                &&& lines@[i].hunk is Some ==> lines@[i].content@.len() <= 0x4000_0000
            },
{
    let limit: u64 = 0x7fff_ffff_ffff_ffff;
    for i in 0..lines.len()
        invariant
            limit == i64::MAX,
            within_limits(patch_views(lines@).take(i as int)),
    {
        let line: &PatchLine = &lines[i];
        proof {
            let views = patch_views(lines@);
            assert(views[i as int] == line@);
            assert(views.take(i + 1) =~= views.take(i as int).push(line@));
            assert(views.take(i + 1)[i as int] == line@);
            assert forall|k: int| 0 <= k < i implies line_within_limits(
                #[trigger] views.take(i + 1)[k],
            ) by {
                assert(line_within_limits(views.take(i as int)[k]));
            }
        }
        if line.old_size > limit || line.new_size > limit || (line.hunk.is_some()
            && line.content.len() > MAX_LINE_CHARS) {
            return false;
        }
    }
    assert(patch_views(lines@).take(lines@.len() as int) =~= patch_views(lines@));
    assert forall|i: int| 0 <= i < lines@.len() implies line_within_limits(
        (#[trigger] lines@[i])@,
    ) by {
        assert(patch_views(lines@)[i] == lines@[i]@);
    }
    true
}

/// Calls `i64::conv` of `easy_cast`, which keeps the number. Where debug assertions are on it
/// panics if the number does not fit.
#[verifier::external_body]
fn conv_i64(x: u64) -> (r: i64)
    requires
        x <= i64::MAX,
    ensures
        r == x,
{
    i64::conv(x)
}

/// Makes a hunk of the lines of a group.
fn finish_hunk(header: HunkHeader, lines: Vec<DiffLine>, order: ByteOrder) -> (r: Hunk)
    requires
        comparable(line_views(lines@)),
        unhighlighted(line_views(lines@)),
    ensures
        r@ == hunk_of((header, line_views(lines@)), order),
        highlights_fit(r@),
        pairs_compared(r@.lines, pairs_from(r@.lines, 0)),
{
    let ghost views = line_views(lines@);
    assert(views.len() == lines.len());
    let mut lines: Vec<DiffLine> = lines;
    add_inline_highlights(lines.as_mut_slice());
    proof {
        let after = line_views(lines@);
        let pairs = pairs_from(views, 0);
        lemma_pairs_from_same_text(views, after, 0);
        law_pairs(views, 0);
        assert forall|k: int| 0 <= k < pairs.len() implies pair_compared(
            after[(#[trigger] pairs[k]).0].content,
            after[pairs[k].1].content,
        ) by {
            assert(views[pairs[k].0].content == after[pairs[k].0].content);
            assert(views[pairs[k].1].content == after[pairs[k].1].content);
        }
        assert forall|i: int| 0 <= i < after.len() implies ranges_in(
            (#[trigger] after[i]).highlights,
            after[i].content,
        ) by {
            assert(views[i].highlights.len() == 0);
            assert(ranges_in(views[i].highlights, views[i].content));
        }
    }
    Hunk { header_hash: header_hash_in(&header, order), lines }
}

/// One more hunk shows one more group.
proof fn lemma_push_hunk(
    hunks: Seq<Hunk>,
    hunk: Hunk,
    groups: Seq<(HunkHeader, Seq<LineView>)>,
    group: (HunkHeader, Seq<LineView>),
    order: ByteOrder,
)
    requires
        hunk_views(hunks) == hunks_of(groups, order),
        hunk@ == hunk_of(group, order),
    ensures
        hunk_views(hunks.push(hunk)) == hunks_of(groups.push(group), order),
{
    assert(hunks.len() == hunk_views(hunks).len());
    assert(groups.len() == hunks_of(groups, order).len());
    assert forall|i: int| 0 <= i <= hunks.len() implies (#[trigger] hunks.push(hunk)[i])@
        == hunk_of(groups.push(group)[i], order) by {
        if i < hunks.len() {
            assert(hunk_views(hunks)[i] == hunks_of(groups, order)[i]);
            assert(groups.push(group)[i] == groups[i]);
            assert(hunks_of(groups, order)[i] == hunk_of(groups[i], order));
            assert(hunk_views(hunks)[i] == hunks[i]@);
            assert(hunks.push(hunk)[i] == hunks[i]);
        } else {
            assert(groups.push(group)[i] == group);
            assert(hunks.push(hunk)[i] == hunk);
        }
    }
    assert(hunk_views(hunks.push(hunk)) =~= hunks_of(groups.push(group), order));
}

/// Puts the diff of a file together from the lines of a patch. The hunk headers are hashed as
/// [`header_hash`](crate::hash::header_hash) does, in the byte order of the machine.
pub fn raw_diff_to_file_diff(lines: &Vec<PatchLine>, untracked: bool) -> (r: FileDiff)
    requires
        within_limits(patch_views(lines@)),
    ensures
        shows_patch(r@, patch_views(lines@), untracked),
        r@ == file_diff_of(patch_views(lines@), untracked, ByteOrder::Little) || r@ == file_diff_of(
            patch_views(lines@),
            untracked,
            ByteOrder::Big,
        ),
        r@.well_formed(),
        hunks_compared(r@.hunks),
{
    file_diff_in(lines, untracked, native_byte_order())
}

/// Puts the diff of a file together from the lines of a patch, the hunk headers hashed in the given
/// byte order.
pub fn file_diff_in(lines: &Vec<PatchLine>, untracked: bool, order: ByteOrder) -> (r: FileDiff)
    requires
        within_limits(patch_views(lines@)),
    ensures
        r@ == file_diff_of(patch_views(lines@), untracked, order),
        r@.well_formed(),
        hunks_compared(r@.hunks),
{
    let ghost views = patch_views(lines@);
    let ghost mut finished: Seq<(HunkHeader, Seq<LineView>)> = Seq::empty();
    let mut hunks: Vec<Hunk> = Vec::new();
    let mut total: usize = 0;
    let mut sizes: (u64, u64) = (0, 0);
    let mut size_delta: i64 = 0;
    let mut current_hunk: Option<HunkHeader> = None;
    let mut current_lines: Vec<DiffLine> = Vec::new();
    assert(hunk_views(hunks@) =~= hunks_of(finished, order));
    for i in 0..lines.len()
        invariant
            views == patch_views(lines@),
            within_limits(views),
            hunk_views(hunks@) == hunks_of(finished, order),
            match current_hunk {
                None => finished.len() == 0 && hunk_groups(views.take(i as int)).len() == 0
                    && current_lines@.len() == 0,
                Some(header) => hunk_groups(views.take(i as int)) == finished.push(
                    (header, line_views(current_lines@)),
                ),
            },
            comparable(line_views(current_lines@)),
            unhighlighted(line_views(current_lines@)),
            forall|k: int|
                0 <= k < hunks@.len() ==> highlights_fit((#[trigger] hunks@[k])@) && pairs_compared(
                    hunks@[k]@.lines,
                    pairs_from(hunks@[k]@.lines, 0),
                ),
            total == shown_lines(views.take(i as int)).len(),
            total <= i,
            sizes == file_sizes(views.take(i as int)),
            size_delta == sizes.1 - sizes.0,
    {
        let line: &PatchLine = &lines[i];
        let ghost seen = views.take(i as int);
        proof {
            assert(views[i as int] == line@);
            assert(line_within_limits(views[i as int]));
            assert(views.take(i + 1) =~= seen.push(line@));
            assert(seen.push(line@).drop_last() =~= seen);
        }
        sizes = (line.old_size, line.new_size);
        size_delta = conv_i64(sizes.1) - conv_i64(sizes.0);
        if let Some(header) = line.hunk {
            match current_hunk {
                None => {
                    current_hunk = Some(header);
                    assert(line_views(current_lines@) =~= Seq::empty());
                },
                Some(h) => {
                    if h != header {
                        let ghost group = (h, line_views(current_lines@));
                        let hunk: Hunk = finish_hunk(h, current_lines, order);
                        proof {
                            lemma_push_hunk(hunks@, hunk, finished, group, order);
                        }
                        hunks.push(hunk);
                        current_lines = Vec::new();
                        current_hunk = Some(header);
                        proof {
                            finished = finished.push(group);
                            assert(line_views(current_lines@) =~= Seq::empty());
                        }
                    }
                },
            }
            let ghost before = line_views(current_lines@);
            let shown: DiffLine = diff_line(line);
            let ghost view = shown@;
            current_lines.push(shown);
            total = total + 1;
            proof {
                assert(line_views(current_lines@) =~= before.push(view));
                assert(hunk_groups(seen.push(line@)) =~= finished.push((header, before.push(view)))) by {
                    assert(seq![view] =~= Seq::empty().push(view));
                    let groups = hunk_groups(seen);
                    if groups.len() > 0 && groups.last().0 == header {
                        assert(groups.drop_last() =~= finished);
                    }
                }
            }
        }
    }
    assert(views.take(lines@.len() as int) =~= views);
    if let Some(h) = current_hunk {
        let ghost group = (h, line_views(current_lines@));
        let hunk: Hunk = finish_hunk(h, current_lines, order);
        proof {
            lemma_push_hunk(hunks@, hunk, finished, group, order);
        }
        hunks.push(hunk);
    } else {
        assert(hunk_groups(views) =~= finished);
    }
    proof {
        assert forall|k: int| 0 <= k < hunk_views(hunks@).len() implies highlights_fit(
            #[trigger] hunk_views(hunks@)[k],
        ) && pairs_compared(
            hunk_views(hunks@)[k].lines,
            pairs_from(hunk_views(hunks@)[k].lines, 0),
        ) by {
            assert(highlights_fit(hunks@[k]@));
        }
        law_file_diff(views, untracked, order);
    }
    FileDiff { hunks, lines: total, untracked, sizes, size_delta }
}

/// The lines of all groups, in order.
pub open spec fn grouped_lines(groups: Seq<(HunkHeader, Seq<LineView>)>) -> Seq<LineView>
    decreases groups.len(),
{
    if groups.len() == 0 {
        Seq::empty()
    } else {
        grouped_lines(groups.drop_last()) + groups.last().1
    }
}

/// The groups hold the lines that belong to a hunk, all of them and in order. No group is empty,
/// and two groups in a row have different headers.
pub proof fn law_hunk_groups(lines: Seq<PatchLineView>)
    ensures
        grouped_lines(hunk_groups(lines)) == shown_lines(lines),
        forall|k: int|
            0 <= k < hunk_groups(lines).len() ==> (#[trigger] hunk_groups(lines)[k]).1.len() > 0,
        forall|k: int|
            0 < k < hunk_groups(lines).len() ==> (#[trigger] hunk_groups(lines)[k]).0
                != hunk_groups(lines)[k - 1].0,
    decreases lines.len(),
{
    if lines.len() > 0 {
        law_hunk_groups(lines.drop_last());
        let before = hunk_groups(lines.drop_last());
        let groups = hunk_groups(lines);
        let line = line_of(lines.last());
        if let Some(header) = lines.last().hunk {
            if before.len() > 0 && before.last().0 == header {
                assert(groups.drop_last() =~= before.drop_last());
                assert(grouped_lines(groups) =~= shown_lines(lines));
            } else {
                assert(groups.drop_last() =~= before);
                assert(grouped_lines(groups) =~= shown_lines(lines));
            }
            assert forall|k: int| 0 < k < groups.len() implies (#[trigger] groups[k]).0 != groups[k
                - 1].0 by {
                if k < before.len() {
                    assert(before[k].0 != before[k - 1].0);
                }
            }
            assert forall|k: int| 0 <= k < groups.len() implies (#[trigger] groups[k]).1.len()
                > 0 by {
                if k < before.len() {
                    assert(before[k].1.len() > 0);
                }
            }
        }
    }
}

/// Where there is a group there is a line that belongs to a hunk.
pub proof fn lemma_group_has_line(lines: Seq<PatchLineView>) -> (i: int)
    requires
        hunk_groups(lines).len() > 0,
    ensures
        0 <= i < lines.len(),
        lines[i].hunk is Some,
    decreases lines.len(),
{
    if lines.last().hunk is Some {
        lines.len() - 1
    } else {
        lemma_group_has_line(lines.drop_last())
    }
}

/// The hunks of some groups have the lines of the groups, apart from highlights.
proof fn lemma_hunks_of(groups: Seq<(HunkHeader, Seq<LineView>)>, order: ByteOrder)
    requires
        grouped_lines(groups).len() <= usize::MAX,
    ensures
        same_text(grouped_lines(groups), all_lines(hunks_of(groups, order))),
    decreases groups.len(),
{
    let hunks = hunks_of(groups, order);
    if groups.len() > 0 {
        lemma_hunks_of(groups.drop_last(), order);
        assert(hunks.drop_last() =~= hunks_of(groups.drop_last(), order));
        let a = grouped_lines(groups.drop_last());
        let b = all_lines(hunks.drop_last());
        let last = groups.last().1;
        law_with_highlights(last);
        assert(hunks.last().lines == with_highlights(last));
        assert forall|i: int| 0 <= i < (a + last).len() implies ({
            let x = #[trigger] (a + last)[i];
            let y = (b + with_highlights(last))[i];
            x.content == y.content && x.line_type == y.line_type && x.position == y.position
        }) by {
            if i < a.len() {
                assert(a[i].content == b[i].content);
            } else {
                assert(last[i - a.len()].content == with_highlights(last)[i - a.len()].content);
            }
        }
    }
}

/// A file diff shows the lines that belong to a hunk, all of them and in order, and counts them:
/// its number of lines is that of all its hunks together. No hunk is empty.
pub proof fn law_file_diff(lines: Seq<PatchLineView>, untracked: bool, order: ByteOrder)
    requires
        lines.len() <= usize::MAX,
    ensures
        ({
            let diff = file_diff_of(lines, untracked, order);
            &&& same_text(shown_lines(lines), all_lines(diff.hunks))
            &&& diff.lines == all_lines(diff.hunks).len()
            &&& forall|k: int| 0 <= k < diff.hunks.len() ==> (#[trigger] diff.hunks[k]).lines.len()
                > 0
        }),
{
    let groups = hunk_groups(lines);
    let hunks = hunks_of(groups, order);
    law_hunk_groups(lines);
    lemma_shown_len(lines);
    lemma_hunks_of(groups, order);
    assert forall|k: int| 0 <= k < hunks.len() implies (#[trigger] hunks[k]).lines.len() > 0 by {
        lemma_group_len(groups, k);
        law_with_highlights(groups[k].1);
        assert(hunks[k].lines == with_highlights(groups[k].1));
    }
}

/// No line is shown twice.
proof fn lemma_shown_len(lines: Seq<PatchLineView>)
    ensures
        shown_lines(lines).len() <= lines.len(),
    decreases lines.len(),
{
    if lines.len() > 0 {
        lemma_shown_len(lines.drop_last());
    }
}

/// A group has no more lines than all groups together.
proof fn lemma_group_len(groups: Seq<(HunkHeader, Seq<LineView>)>, k: int)
    requires
        0 <= k < groups.len(),
    ensures
        groups[k].1.len() <= grouped_lines(groups).len(),
    decreases groups.len(),
{
    if k < groups.len() - 1 {
        lemma_group_len(groups.drop_last(), k);
    }
}

/// The lines of a patch are put into groups without highlights.
proof fn lemma_groups_unhighlighted(lines: Seq<PatchLineView>, k: int)
    requires
        0 <= k < hunk_groups(lines).len(),
    ensures
        unhighlighted(hunk_groups(lines)[k].1),
    decreases lines.len(),
{
    let before = hunk_groups(lines.drop_last());
    let line = line_of(lines.last());
    if k < before.len() {
        lemma_groups_unhighlighted(lines.drop_last(), k);
    }
}

/// Only added and deleted lines that have a counterpart are highlighted.
pub proof fn law_highlighted_lines(
    lines: Seq<PatchLineView>,
    untracked: bool,
    order: ByteOrder,
    k: int,
    i: int,
)
    requires
        lines.len() <= usize::MAX,
        0 <= k < file_diff_of(lines, untracked, order).hunks.len(),
        0 <= i < file_diff_of(lines, untracked, order).hunks[k].lines.len(),
        file_diff_of(lines, untracked, order).hunks[k].lines[i].highlights.len() > 0,
    ensures
        is_paired(pairs_from(hunk_groups(lines)[k].1, 0), i),
        ({
            let t = file_diff_of(lines, untracked, order).hunks[k].lines[i].line_type;
            t == DiffLineType::Add || t == DiffLineType::Delete
        }),
{
    let group = hunk_groups(lines)[k];
    law_hunk_groups(lines);
    lemma_shown_len(lines);
    lemma_group_len(hunk_groups(lines), k);
    lemma_groups_unhighlighted(lines, k);
    law_with_highlights(group.1);
    assert(file_diff_of(lines, untracked, order).hunks[k] == hunk_of(group, order));
    assert(group.1[i].highlights.len() == 0);
    assert(group.1[i].line_type == with_highlights(group.1)[i].line_type);
}

/// The number of lines of a patch that belong to a hunk.
pub open spec fn count_in_hunks(lines: Seq<PatchLineView>) -> nat {
    lines.filter(|l: PatchLineView| l.hunk is Some).len()
}

/// One more line is one more in hunks if it belongs to one.
proof fn lemma_count_in_hunks(lines: Seq<PatchLineView>)
    ensures
        lines.len() == 0 ==> count_in_hunks(lines) == 0,
        lines.len() > 0 ==> count_in_hunks(lines) == count_in_hunks(lines.drop_last())
            + if lines.last().hunk is Some {
            1nat
        } else {
            0
        },
{
    reveal(Seq::filter);
}

/// Fewer lines have no more lines in hunks, and one that is in a hunk makes a difference.
proof fn lemma_count_order(lines: Seq<PatchLineView>, i: int, j: int)
    requires
        0 <= i <= j <= lines.len(),
    ensures
        count_in_hunks(lines.take(i)) <= count_in_hunks(lines.take(j)),
        i < j && lines[i].hunk is Some ==> count_in_hunks(lines.take(i)) < count_in_hunks(
            lines.take(j),
        ),
        (forall|x: int| i <= x < j ==> (#[trigger] lines[x]).hunk is None) ==> count_in_hunks(
            lines.take(i),
        ) == count_in_hunks(lines.take(j)),
    decreases j - i,
{
    if i < j {
        lemma_count_order(lines, i, j - 1);
        lemma_count_in_hunks(lines.take(j));
        assert(lines.take(j).drop_last() =~= lines.take(j - 1));
        assert(lines.take(j).last() == lines[j - 1]);
    }
}

/// The lines that are shown are the lines in hunks, each at its place.
proof fn lemma_shown_line(lines: Seq<PatchLineView>, i: int)
    ensures
        shown_lines(lines).len() == count_in_hunks(lines),
        0 <= i < lines.len() && lines[i].hunk is Some ==> count_in_hunks(lines.take(i))
            < shown_lines(lines).len() && shown_lines(lines)[count_in_hunks(lines.take(i)) as int]
            == line_of(lines[i]),
    decreases lines.len(),
{
    lemma_count_in_hunks(lines);
    if lines.len() > 0 {
        let rest = lines.drop_last();
        let n = lines.len() - 1;
        lemma_shown_line(rest, i);
        assert(lines.take(n) =~= rest);
        if 0 <= i < n {
            assert(rest.take(i) =~= lines.take(i));
            assert(rest[i] == lines[i]);
        }
    }
}

/// The lines of all hunks, one hunk after the other.
pub open spec fn lines_of_hunks(hunks: Seq<HunkView>) -> Seq<LineView> {
    hunks.map_values(|h: HunkView| h.lines).flatten()
}

/// All lines are the lines of the hunks, one hunk after the other.
proof fn lemma_lines_of_hunks(hunks: Seq<HunkView>)
    ensures
        lines_of_hunks(hunks) == all_lines(hunks),
    decreases hunks.len(),
{
    let all = hunks.map_values(|h: HunkView| h.lines);
    all.lemma_flatten_and_flatten_alt_are_equivalent();
    if hunks.len() > 0 {
        let some = hunks.drop_last().map_values(|h: HunkView| h.lines);
        lemma_lines_of_hunks(hunks.drop_last());
        some.lemma_flatten_and_flatten_alt_are_equivalent();
        assert(all.drop_last() =~= some);
        assert(lines_of_hunks(hunks.drop_last()) == some.flatten());
    }
    assert(lines_of_hunks(hunks) == all.flatten());
}

/// The lines of all hunks together are the lines of the patch that belong to a hunk, whatever they
/// are, one to one and in order: there are as many, and each stands at the place that it has among
/// them, with its own text, type and numbers. Their number is the number of lines of the diff.
pub proof fn law_lines_shown(
    lines: Seq<PatchLineView>,
    untracked: bool,
    order: ByteOrder,
    i: int,
)
    requires
        lines.len() <= usize::MAX,
        0 <= i < lines.len(),
    ensures
        ({
            let diff = file_diff_of(lines, untracked, order);
            let shown = lines_of_hunks(diff.hunks);
            let place = count_in_hunks(lines.take(i)) as int;
            &&& diff.lines == count_in_hunks(lines)
            &&& shown.len() == count_in_hunks(lines)
            &&& lines[i].hunk is Some ==> {
                &&& place < shown.len()
                &&& shown[place].content == trimmed(text_of(lines[i].content))
                &&& shown[place].position.old_lineno == lines[i].old_lineno
                &&& shown[place].position.new_lineno == lines[i].new_lineno
                &&& shown[place].line_type == DiffLineType::Header <==> lines[i].origin == 'H'
                &&& shown[place].line_type == DiffLineType::Delete <==> lines[i].origin == '-'
                    || lines[i].origin == '<'
                &&& shown[place].line_type == DiffLineType::Add <==> lines[i].origin == '+'
                    || lines[i].origin == '>'
            }
        }),
{
    let diff = file_diff_of(lines, untracked, order);
    law_file_diff(lines, untracked, order);
    lemma_lines_of_hunks(diff.hunks);
    lemma_shown_line(lines, i);
    if lines[i].hunk is Some {
        let place = count_in_hunks(lines.take(i)) as int;
        assert(shown_lines(lines)[place].content == all_lines(diff.hunks)[place].content);
    }
}

/// A patch without lines makes an empty diff. In any other the sizes are those of the last line,
/// and the size delta is how much larger the new one is.
pub proof fn law_sizes(lines: Seq<PatchLineView>, untracked: bool, order: ByteOrder)
    ensures
        ({
            let diff = file_diff_of(lines, untracked, order);
            &&& diff.untracked == untracked
            &&& diff.size_delta == diff.sizes.1 - diff.sizes.0
            &&& lines.len() == 0 ==> diff.hunks.len() == 0 && diff.lines == 0 && diff.sizes.0 == 0
                && diff.sizes.1 == 0
            &&& lines.len() > 0 ==> diff.sizes.0 == lines[lines.len() - 1].old_size && diff.sizes.1
                == lines[lines.len() - 1].new_size
        }),
{
}

/// Where the groups before the group `k` end.
spec fn group_start(groups: Seq<(HunkHeader, Seq<LineView>)>, k: int) -> int {
    grouped_lines(groups.take(k)).len() as int
}

/// A group more starts where the others end.
proof fn lemma_group_start(groups: Seq<(HunkHeader, Seq<LineView>)>, k: int)
    requires
        0 <= k < groups.len(),
    ensures
        group_start(groups, k + 1) == group_start(groups, k) + groups[k].1.len(),
{
    assert(groups.take(k + 1).drop_last() =~= groups.take(k));
    assert(groups.take(k + 1).last() == groups[k]);
}

/// Groups start one after the other.
proof fn lemma_group_starts(groups: Seq<(HunkHeader, Seq<LineView>)>, k: int, x: int)
    requires
        0 <= k <= x <= groups.len(),
    ensures
        group_start(groups, k) <= group_start(groups, x),
    decreases x - k,
{
    if k < x {
        lemma_group_starts(groups, k, x - 1);
        lemma_group_start(groups, x - 1);
    }
}

/// A line in a hunk stands in a group with its own header.
proof fn lemma_line_group(lines: Seq<PatchLineView>, i: int) -> (k: int)
    requires
        0 <= i < lines.len(),
        lines[i].hunk is Some,
    ensures
        0 <= k < hunk_groups(lines).len(),
        group_start(hunk_groups(lines), k) <= count_in_hunks(lines.take(i)) < group_start(
            hunk_groups(lines),
            k + 1,
        ),
        Some(hunk_groups(lines)[k].0) == lines[i].hunk,
    decreases lines.len(),
{
    let rest = lines.drop_last();
    let n = lines.len() - 1;
    let before = hunk_groups(rest);
    let groups = hunk_groups(lines);
    assert(lines.take(n) =~= rest);
    if i < n {
        let k = lemma_line_group(rest, i);
        assert(rest.take(i) =~= lines.take(i));
        if lines.last().hunk is Some {
            assert(groups.take(k) =~= before.take(k));
            if k < before.len() - 1 || groups.len() > before.len() {
                assert(groups.take(k + 1) =~= before.take(k + 1));
            } else {
                lemma_group_start(groups, k);
                lemma_group_start(before, k);
            }
        }
        k
    } else {
        let k = groups.len() - 1;
        law_hunk_groups(rest);
        law_hunk_groups(lines);
        lemma_shown_line(rest, 0);
        lemma_shown_line(lines, 0);
        lemma_count_in_hunks(lines);
        lemma_group_start(groups, k);
        assert(groups.take(k + 1) =~= groups);
        if groups.len() > before.len() {
            assert(groups.take(k) =~= before);
        } else {
            assert(groups.take(k) =~= before.drop_last());
            assert(before.take(k) =~= before.drop_last());
            lemma_group_start(before, k);
            assert(before.take(k + 1) =~= before);
        }
        k
    }
}

/// Two lines in hunks with none in hunks between them stand in one group if they have the same
/// header.
proof fn lemma_neighbour_group(lines: Seq<PatchLineView>, i: int, j: int, k: int)
    requires
        0 <= i < j < lines.len(),
        lines[i].hunk is Some,
        lines[j].hunk == lines[i].hunk,
        forall|x: int| i < x < j ==> (#[trigger] lines[x]).hunk is None,
        0 <= k < hunk_groups(lines).len(),
        group_start(hunk_groups(lines), k) <= count_in_hunks(lines.take(i)) < group_start(
            hunk_groups(lines),
            k + 1,
        ),
    ensures
        count_in_hunks(lines.take(j)) < group_start(hunk_groups(lines), k + 1),
{
    let groups = hunk_groups(lines);
    let x = lemma_line_group(lines, i);
    let y = lemma_line_group(lines, j);
    lemma_group_unique(groups, x, k, count_in_hunks(lines.take(i)) as int);
    lemma_count_order(lines, i, j);
    lemma_count_in_hunks(lines.take(i + 1));
    assert(lines.take(i + 1).drop_last() =~= lines.take(i));
    assert(lines.take(i + 1).last() == lines[i]);
    lemma_count_order(lines, i + 1, j);
    assert(count_in_hunks(lines.take(j)) == count_in_hunks(lines.take(i)) + 1);
    law_hunk_groups(lines);
    if y != k {
        if y < k {
            lemma_group_starts(groups, y + 1, k);
        } else {
            lemma_group_starts(groups, k + 1, y);
            lemma_group_start(groups, k + 1);
            if y > k + 1 {
                assert(groups[k + 1].1.len() > 0);
                lemma_group_starts(groups, k + 2, y);
            } else {
                assert(groups[y].0 != groups[y - 1].0);
            }
        }
    }
}

/// A place is in one group only.
proof fn lemma_group_unique(groups: Seq<(HunkHeader, Seq<LineView>)>, x: int, k: int, p: int)
    requires
        0 <= x < groups.len(),
        0 <= k < groups.len(),
        group_start(groups, x) <= p < group_start(groups, x + 1),
        group_start(groups, k) <= p < group_start(groups, k + 1),
    ensures
        x == k,
{
    if x < k {
        lemma_group_starts(groups, x + 1, k);
    }
    if k < x {
        lemma_group_starts(groups, k + 1, x);
    }
}

/// The hunks before a hunk have as many lines as the groups before its group.
proof fn lemma_hunk_start(groups: Seq<(HunkHeader, Seq<LineView>)>, order: ByteOrder, k: int)
    requires
        0 <= k <= groups.len(),
        grouped_lines(groups).len() <= usize::MAX,
    ensures
        lines_of_hunks(hunks_of(groups, order).take(k)).len() == group_start(groups, k),
{
    assert(hunks_of(groups, order).take(k) =~= hunks_of(groups.take(k), order));
    lemma_lines_of_hunks(hunks_of(groups, order).take(k));
    lemma_group_starts(groups, k, groups.len() as int);
    assert(groups.take(groups.len() as int) =~= groups);
    lemma_hunks_of(groups.take(k), order);
}

/// A hunk has the lines with one header: the hash of the hunk is that of the header of each of its
/// lines. Of two lines in hunks with none in hunks between them, both are in the same hunk if and
/// only if they have the same header.
pub proof fn law_hunk_of_line(
    lines: Seq<PatchLineView>,
    untracked: bool,
    order: ByteOrder,
    i: int,
    k: int,
)
    requires
        lines.len() <= usize::MAX,
        0 <= i < lines.len(),
        lines[i].hunk is Some,
        0 <= k < file_diff_of(lines, untracked, order).hunks.len(),
        ({
            let hunks = file_diff_of(lines, untracked, order).hunks;
            lines_of_hunks(hunks.take(k)).len() <= count_in_hunks(lines.take(i)) < lines_of_hunks(
                hunks.take(k + 1),
            ).len()
        }),
    ensures
        file_diff_of(lines, untracked, order).hunks[k].header_hash == header_hash_of(
            lines[i].hunk->0,
            order,
        ),
        forall|j: int|
            i < j < lines.len() && (#[trigger] lines[j]).hunk is Some && (forall|x: int|
                i < x < j ==> (#[trigger] lines[x]).hunk is None) ==> (lines[j].hunk
                == lines[i].hunk <==> count_in_hunks(lines.take(j)) < lines_of_hunks(
                file_diff_of(lines, untracked, order).hunks.take(k + 1),
            ).len()),
{
    let groups = hunk_groups(lines);
    let hunks = file_diff_of(lines, untracked, order).hunks;
    law_hunk_groups(lines);
    lemma_shown_len(lines);
    lemma_hunk_start(groups, order, k);
    lemma_hunk_start(groups, order, k + 1);
    let x = lemma_line_group(lines, i);
    lemma_group_unique(groups, x, k, count_in_hunks(lines.take(i)) as int);
    assert(hunks[k] == hunk_of(groups[k], order));
    assert forall|j: int|
        i < j < lines.len() && (#[trigger] lines[j]).hunk is Some && (forall|x: int|
            i < x < j ==> (#[trigger] lines[x]).hunk is None) implies (lines[j].hunk
        == lines[i].hunk <==> count_in_hunks(lines.take(j)) < lines_of_hunks(
        hunks.take(k + 1),
    ).len()) by {
        if lines[j].hunk == lines[i].hunk {
            lemma_neighbour_group(lines, i, j, k);
        } else if count_in_hunks(lines.take(j)) < group_start(groups, k + 1) {
            let y = lemma_line_group(lines, j);
            lemma_count_order(lines, i, j);
            lemma_group_unique(groups, y, k, count_in_hunks(lines.take(j)) as int);
        }
    }
}

/// A line is within the limits if its sizes fit into 63 bits and, in a hunk, it has no more bytes
/// than lines can have characters to be compared.
pub proof fn law_limits(lines: Seq<PatchLineView>)
    ensures
        within_limits(lines) <==> forall|i: int|
            0 <= i < lines.len() ==> {
                &&& (#[trigger] lines[i]).old_size <= 0x7fff_ffff_ffff_ffff
                &&& lines[i].new_size <= 0x7fff_ffff_ffff_ffff
                &&& lines[i].hunk is Some ==> lines[i].content.len() <= 0x4000_0000
            },
{
    if within_limits(lines) {
        assert forall|i: int| 0 <= i < lines.len() implies {
            &&& (#[trigger] lines[i]).old_size <= 0x7fff_ffff_ffff_ffff
            &&& lines[i].new_size <= 0x7fff_ffff_ffff_ffff
            &&& lines[i].hunk is Some ==> lines[i].content.len() <= 0x4000_0000
        } by {
            assert(line_within_limits(lines[i]));
        }
    }
}

/// The views of a file diff and of its hunks have what these have.
pub proof fn law_file_diff_view(diff: FileDiff)
    ensures
        diff@.hunks.len() == diff.hunks@.len(),
        forall|k: int|
            0 <= k < diff.hunks@.len() ==> (#[trigger] diff@.hunks[k]).header_hash
                == diff.hunks@[k].header_hash && diff@.hunks[k].lines == line_views(
                diff.hunks@[k].lines@,
            ),
        diff@.lines == diff.lines,
        diff@.untracked == diff.untracked,
        diff@.sizes.0 == diff.sizes.0,
        diff@.sizes.1 == diff.sizes.1,
        diff@.size_delta == diff.size_delta,
{
}

/// Lines without their highlights.
pub open spec fn cleared(lines: Seq<LineView>) -> Seq<LineView> {
    lines.map_values(
        |l: LineView|
            LineView {
                content: l.content,
                line_type: l.line_type,
                position: l.position,
                highlights: Seq::empty(),
            },
    )
}

/// The highlights of a hunk are those that its own lines are given when they have none.
pub proof fn law_hunk_highlights(
    lines: Seq<PatchLineView>,
    untracked: bool,
    order: ByteOrder,
    k: int,
)
    requires
        lines.len() <= usize::MAX,
        0 <= k < file_diff_of(lines, untracked, order).hunks.len(),
    ensures
        ({
            let shown = file_diff_of(lines, untracked, order).hunks[k].lines;
            shown == with_highlights(cleared(shown))
        }),
{
    let groups = hunk_groups(lines);
    let group = groups[k].1;
    let shown = with_highlights(group);
    law_hunk_groups(lines);
    lemma_shown_len(lines);
    lemma_group_len(groups, k);
    lemma_groups_unhighlighted(lines, k);
    law_with_highlights(group);
    assert(file_diff_of(lines, untracked, order).hunks[k] == hunk_of(groups[k], order));
    assert forall|i: int| 0 <= i < group.len() implies #[trigger] cleared(shown)[i] == group[i] by {
        assert(group[i].content == shown[i].content);
        assert(group[i].highlights =~= Seq::empty());
    }
    assert(cleared(shown) =~= group);
}

} // verus!
