//! The lines of a diff, as git reports them and as they are shown.
use crate::text::byte_len;
use vstd::prelude::*;
use vstd::std_specs::cmp::PartialEqSpec;
use vstd::std_specs::convert::FromSpec;
use vstd::utf8::*;

verus! {

/// type of diff of a single line
#[derive(Copy, Clone, Default, PartialEq, Eq, Hash, Debug, Structural)]
pub enum DiffLineType {
    /// just surrounding line, no change
    #[default]
    Unchanged,
    /// header of the hunk
    Header,
    /// line added
    Add,
    /// line deleted
    Delete,
}

/// A line of a patch, as git prints it, with the hunk and the file sizes that come with it.
#[derive(Debug)]
pub struct PatchLine {
    /// size of the old file in bytes
    pub old_size: u64,
    /// size of the new file in bytes
    pub new_size: u64,
    /// the hunk that the line belongs to; lines about the file as a whole belong to none
    pub hunk: Option<HunkHeader>,
    /// the sigil that shows what kind of line it is
    pub origin: char,
    /// line number in the old file
    pub old_lineno: Option<u32>,
    /// line number in the new file
    pub new_lineno: Option<u32>,
    /// the bytes of the line
    pub content: Vec<u8>,
}

/// The contents of a [`PatchLine`].
pub struct PatchLineView {
    pub old_size: u64,
    pub new_size: u64,
    pub hunk: Option<HunkHeader>,
    pub origin: char,
    pub old_lineno: Option<u32>,
    pub new_lineno: Option<u32>,
    pub content: Seq<u8>,
}

impl View for PatchLine {
    type V = PatchLineView;

    open spec fn view(&self) -> PatchLineView {
        PatchLineView {
            old_size: self.old_size,
            new_size: self.new_size,
            hunk: self.hunk,
            origin: self.origin,
            old_lineno: self.old_lineno,
            new_lineno: self.new_lineno,
            content: self.content@,
        }
    }
}

/// The contents of a list of patch lines.
pub open spec fn patch_views(lines: Seq<PatchLine>) -> Seq<PatchLineView> {
    Seq::new(lines.len(), |i: int| lines[i]@)
}

/// The kind of line that a sigil shows: `H` marks the header of a hunk, `+` and `>` an added line,
/// `-` and `<` a deleted one, the last of each pair being about the newline at the end of the file.
pub open spec fn line_type_of(origin: char) -> DiffLineType {
    if origin == 'H' {
        DiffLineType::Header
    } else if origin == '-' || origin == '<' {
        DiffLineType::Delete
    } else if origin == '+' || origin == '>' {
        DiffLineType::Add
    } else {
        DiffLineType::Unchanged
    }
}

impl vstd::std_specs::convert::FromSpecImpl<char> for DiffLineType {
    open spec fn obeys_from_spec() -> bool {
        true
    }

    open spec fn from_spec(origin: char) -> Self {
        line_type_of(origin)
    }
}

impl From<char> for DiffLineType {
    fn from(origin: char) -> (r: Self) {
        match origin {
            'H' => DiffLineType::Header,
            '<' | '-' => DiffLineType::Delete,
            '>' | '+' => DiffLineType::Add,
            _ => DiffLineType::Unchanged,
        }
    }
}

/// A byte range [start, end) within a `DiffLine`'s content that was changed.
/// Used to highlight individual changed words on Add/Delete lines.
#[derive(Hash, Debug, PartialEq, Eq, Structural)]
pub struct InlineHighlight {
    /// Byte offset of the start of the changed token (inclusive)
    pub start: usize,
    /// Byte offset of the end of the changed token (exclusive)
    pub end: usize,
}

impl View for InlineHighlight {
    type V = (int, int);

    open spec fn view(&self) -> (int, int) {
        (self.start as int, self.end as int)
    }
}

impl Clone for InlineHighlight {
    fn clone(&self) -> (r: Self)
        ensures
            r == *self,
    {
        InlineHighlight { start: self.start, end: self.end }
    }
}

/// The byte ranges of some highlights.
pub open spec fn ranges(highlights: Seq<InlineHighlight>) -> Seq<(int, int)> {
    Seq::new(highlights.len(), |i: int| highlights[i]@)
}

/// Where a line stands in the old and in the new file.
#[derive(Clone, Copy, Default, Hash, Debug, PartialEq, Eq)]
pub struct DiffLinePosition {
    /// line number in the old file, if the line stands there
    pub old_lineno: Option<u32>,
    /// line number in the new file, if the line stands there
    pub new_lineno: Option<u32>,
}

/// The position that git reports of a line.
pub open spec fn position_of(line: PatchLineView) -> DiffLinePosition {
    DiffLinePosition { old_lineno: line.old_lineno, new_lineno: line.new_lineno }
}

/// Whether a line stands at a position.
pub open spec fn stands_at(position: DiffLinePosition, line: PatchLineView) -> bool {
    line.new_lineno == position.new_lineno && line.old_lineno == position.old_lineno
}

impl vstd::std_specs::cmp::PartialEqSpecImpl<&PatchLine> for DiffLinePosition {
    open spec fn obeys_eq_spec() -> bool {
        true
    }

    open spec fn eq_spec(&self, other: &&PatchLine) -> bool {
        stands_at(*self, other@)
    }
}

impl PartialEq<&PatchLine> for DiffLinePosition {
    fn eq(&self, other: &&PatchLine) -> (r: bool) {
        other.new_lineno == self.new_lineno && other.old_lineno == self.old_lineno
    }
}

impl vstd::std_specs::convert::FromSpecImpl<&PatchLine> for DiffLinePosition {
    open spec fn obeys_from_spec() -> bool {
        true
    }

    open spec fn from_spec(line: &PatchLine) -> Self {
        position_of(line@)
    }
}

impl From<&PatchLine> for DiffLinePosition {
    fn from(line: &PatchLine) -> (r: Self) {
        DiffLinePosition { old_lineno: line.old_lineno, new_lineno: line.new_lineno }
    }
}

/// A position is equal to a line exactly if it is the position that is made from that line.
pub proof fn law_position_of_line(position: DiffLinePosition, line: PatchLineView)
    ensures
        stands_at(position, line) <==> position == position_of(line),
        stands_at(position, line) <==> position.old_lineno == line.old_lineno && position.new_lineno
            == line.new_lineno,
        position_of(line).old_lineno == line.old_lineno,
        position_of(line).new_lineno == line.new_lineno,
{
}

/// The position that is made of a line has both numbers of the line, each in its place, and a
/// position is equal to a line if and only if both numbers are.
pub proof fn law_positions(position: DiffLinePosition, line: &PatchLine)
    ensures
        <DiffLinePosition as FromSpec<&PatchLine>>::obeys_from_spec(),
        <DiffLinePosition as FromSpec<&PatchLine>>::from_spec(line).old_lineno == line.old_lineno,
        <DiffLinePosition as FromSpec<&PatchLine>>::from_spec(line).new_lineno == line.new_lineno,
        <DiffLinePosition as PartialEqSpec<&PatchLine>>::obeys_eq_spec(),
        <DiffLinePosition as PartialEqSpec<&PatchLine>>::eq_spec(&position, &line) <==> (
        position.old_lineno == line.old_lineno && position.new_lineno == line.new_lineno),
{
}

/// A line is a header, added or deleted exactly if its sigil says so.
pub proof fn law_line_types(origin: char)
    ensures
        <DiffLineType as FromSpec<char>>::obeys_from_spec(),
        ({
            let t = <DiffLineType as FromSpec<char>>::from_spec(origin);
            &&& t == line_type_of(origin)
            &&& t == DiffLineType::Header <==> origin == 'H'
            &&& t == DiffLineType::Delete <==> origin == '-' || origin == '<'
            &&& t == DiffLineType::Add <==> origin == '+' || origin == '>'
            &&& t == DiffLineType::Unchanged <==> origin != 'H' && origin != '-' && origin != '<'
                && origin != '+' && origin != '>'
        }),
{
}

/// One line of a diff.
#[derive(Default, Hash, Debug)]
pub struct DiffLine {
    /// the text, without the newline
    pub content: Box<str>,
    /// what kind of line it is
    pub line_type: DiffLineType,
    /// where it stands
    pub position: DiffLinePosition,
    /// Word-level highlighted byte ranges within `content`.
    /// Non-empty only for Add/Delete lines that have a paired counterpart.
    pub inline_highlights: Vec<InlineHighlight>,
}

/// The contents of a [`DiffLine`].
pub struct LineView {
    pub content: Seq<char>,
    pub line_type: DiffLineType,
    pub position: DiffLinePosition,
    pub highlights: Seq<(int, int)>,
}

impl View for DiffLine {
    type V = LineView;

    open spec fn view(&self) -> LineView {
        LineView {
            content: self.content@,
            line_type: self.line_type,
            position: self.position,
            highlights: ranges(self.inline_highlights@),
        }
    }
}

impl Clone for DiffLine {
    fn clone(&self) -> (r: Self)
        ensures
            r@ == self@,
    {
        let inline_highlights: Vec<InlineHighlight> = self.inline_highlights.clone();
        assert(ranges(inline_highlights@) =~= ranges(self.inline_highlights@));
        DiffLine {
            content: self.content.clone(),
            line_type: self.line_type,
            position: self.position,
            inline_highlights,
        }
    }
}

/// The contents of a list of diff lines.
pub open spec fn line_views(lines: Seq<DiffLine>) -> Seq<LineView> {
    Seq::new(lines.len(), |i: int| lines[i]@)
}

/// The most characters that a line can have for its tokens to be told apart from those of another
/// line. git treats a file of as many bytes as binary.
pub const MAX_LINE_CHARS: usize = 0x4000_0000;

/// Whether every line is short enough to be compared with others.
pub open spec fn comparable(lines: Seq<LineView>) -> bool {
    forall|i: int| 0 <= i < lines.len() ==> (#[trigger] lines[i]).content.len() <= MAX_LINE_CHARS
}

/// Whether the byte ranges stand in the text one after the other, from character boundary to
/// character boundary.
pub open spec fn ranges_ordered(ranges: Seq<(int, int)>, content: Seq<char>) -> bool {
    &&& forall|i: int|
        0 <= i < ranges.len() ==> {
            let r = #[trigger] ranges[i];
            &&& 0 <= r.0 <= r.1 <= byte_len(content)
            &&& is_char_boundary(encode_utf8(content), r.0)
            &&& is_char_boundary(encode_utf8(content), r.1)
        }
    &&& forall|i: int, j: int|
        0 <= i < j < ranges.len() ==> (#[trigger] ranges[i]).1 <= (#[trigger] ranges[j]).0
}

/// Whether the byte ranges stand in the text one after the other, none of them empty.
pub open spec fn ranges_in(ranges: Seq<(int, int)>, content: Seq<char>) -> bool {
    &&& ranges_ordered(ranges, content)
    &&& forall|i: int| 0 <= i < ranges.len() ==> (#[trigger] ranges[i]).0 < ranges[i].1
}

/// Start and size of a hunk in the old and in the new file.
#[derive(Debug, Default, Clone, Copy, PartialEq, Eq, Hash, Structural)]
pub struct HunkHeader {
    /// first line in the old file
    pub old_start: u32,
    /// number of lines in the old file
    pub old_lines: u32,
    /// first line in the new file
    pub new_start: u32,
    /// number of lines in the new file
    pub new_lines: u32,
}

impl HunkHeader {
    /// The header with these numbers.
    pub fn new(old_start: u32, old_lines: u32, new_start: u32, new_lines: u32) -> (r: Self)
        ensures
            r == (HunkHeader { old_start, old_lines, new_start, new_lines }),
    {
        HunkHeader { old_start, old_lines, new_start, new_lines }
    }
}

/// A range is the start and the end of its highlight.
pub proof fn law_ranges(highlights: Seq<InlineHighlight>)
    ensures
        ranges(highlights).len() == highlights.len(),
        forall|i: int|
            0 <= i < highlights.len() ==> (#[trigger] ranges(highlights)[i]).0
                == highlights[i].start && ranges(highlights)[i].1 == highlights[i].end,
{
}

/// The views of lines have what the lines have.
pub proof fn law_line_views(lines: Seq<DiffLine>, i: int)
    requires
        0 <= i < lines.len(),
    ensures
        line_views(lines).len() == lines.len(),
        line_views(lines)[i].content == lines[i].content@,
        line_views(lines)[i].line_type == lines[i].line_type,
        line_views(lines)[i].position.old_lineno == lines[i].position.old_lineno,
        line_views(lines)[i].position.new_lineno == lines[i].position.new_lineno,
        line_views(lines)[i].highlights == ranges(lines[i].inline_highlights@),
{
}

/// The views of patch lines have what the lines have.
pub proof fn law_patch_views(lines: Seq<PatchLine>, i: int)
    requires
        0 <= i < lines.len(),
    ensures
        patch_views(lines).len() == lines.len(),
        patch_views(lines)[i].old_size == lines[i].old_size,
        patch_views(lines)[i].new_size == lines[i].new_size,
        patch_views(lines)[i].hunk == lines[i].hunk,
        patch_views(lines)[i].origin == lines[i].origin,
        patch_views(lines)[i].old_lineno == lines[i].old_lineno,
        patch_views(lines)[i].new_lineno == lines[i].new_lineno,
        patch_views(lines)[i].content == lines[i].content@,
{
}

} // verus!
