//! Where the lines of a diff come from: what to ask git for, and what to do about a file that git
//! does not track yet.
use crate::error::DiffError;
use crate::file_diff::{
    file_diff_of, fits_limits, hunk_groups, hunks_compared, lemma_group_has_line, line_of,
    line_within_limits, raw_diff_to_file_diff, shows_patch, within_limits, FileDiff,
};
use crate::hash::ByteOrder;
use crate::inline::{law_with_highlights, with_highlights};
use crate::line::{patch_views, DiffLineType, HunkHeader, PatchLine, PatchLineView};
use crate::text::{text_of, trimmed};
use git2::Patch;
use std::path::Path;
use vstd::prelude::*;
use vstd::slice::slice_to_vec;
use vstd::utf8::*;

verus! {

/// How lines are compared and how much is shown around a change.
///
/// see <https://libgit2.org/libgit2/#HEAD/type/git_diff_options>
#[derive(Debug, Hash, Clone, Copy, PartialEq, Eq, Structural)]
pub struct DiffOptions {
    /// see <https://libgit2.org/libgit2/#HEAD/type/git_diff_options>
    pub ignore_whitespace: bool,
    /// see <https://libgit2.org/libgit2/#HEAD/type/git_diff_options>
    pub context: u32,
    /// see <https://libgit2.org/libgit2/#HEAD/type/git_diff_options>
    pub interhunk_lines: u32,
}

impl Default for DiffOptions {
    fn default() -> (r: Self)
        ensures
            !r.ignore_whitespace,
            r.context == 3,
            r.interhunk_lines == 0,
    {
        DiffOptions { ignore_whitespace: false, context: 3, interhunk_lines: 0 }
    }
}

/// What a diff compares.
#[derive(Debug, Clone, Copy, PartialEq, Eq, Structural)]
pub enum Comparison {
    /// the tree of the commit at `HEAD` with the index
    HeadToIndex,
    /// nothing with the index
    EmptyToIndex,
    /// the index with the working directory
    IndexToWorkdir,
}

/// What git is asked for.
#[derive(Debug)]
pub struct DiffRequest {
    /// what is compared
    pub comparison: Comparison,
    /// which paths are looked at
    pub pathspec: String,
    /// whether the sides are swapped
    pub reverse: bool,
    /// options that differ from git's own
    pub options: Option<DiffOptions>,
    /// whether files that are not tracked are looked at
    pub include_untracked: bool,
    /// whether directories that are not tracked are looked into
    pub recurse_untracked_dirs: bool,
}

/// What to ask git for, to see the changes of `p` in the index (`stage`) or in the working
/// directory. What is in the index is compared with the commit at `HEAD` if there is one; files
/// that are not tracked are looked for in the working directory only.
pub fn diff_request(
    p: &str,
    stage: bool,
    reverse: bool,
    has_head: bool,
    options: Option<DiffOptions>,
) -> (r: DiffRequest)
    ensures
        r.pathspec@ == p@,
        r.reverse == reverse,
        r.options == options,
        r.include_untracked == !stage,
        r.recurse_untracked_dirs == !stage,
        r.comparison == (if !stage {
            Comparison::IndexToWorkdir
        } else if has_head {
            Comparison::HeadToIndex
        } else {
            Comparison::EmptyToIndex
        }),
{
    let comparison = if stage {
        if has_head {
            Comparison::HeadToIndex
        } else {
            Comparison::EmptyToIndex
        }
    } else {
        Comparison::IndexToWorkdir
    };
    DiffRequest {
        comparison,
        pathspec: p.to_string(),
        reverse,
        options,
        include_untracked: !stage,
        recurse_untracked_dirs: !stage,
    }
}

/// What became of a file.
#[derive(Debug, Clone, Copy, PartialEq, Eq, Structural)]
pub enum DeltaStatus {
    /// no changes
    Unmodified,
    /// in the new version only
    Added,
    /// in the old version only
    Deleted,
    /// content changed
    Modified,
    /// renamed
    Renamed,
    /// copied from another file
    Copied,
    /// ignored in the working directory
    Ignored,
    /// not tracked in the working directory
    Untracked,
    /// type of the entry changed
    Typechange,
    /// cannot be read
    Unreadable,
    /// conflicted in the index
    Conflicted,
}

/// One file of a diff.
#[derive(Debug)]
pub struct DeltaSummary<P> {
    /// what became of it
    pub status: DeltaStatus,
    /// its path in the new version
    pub new_path: Option<P>,
}

/// Where the lines of a diff come from.
#[derive(Debug)]
pub enum DiffSource<P> {
    /// from a new file at this path
    NewFile(P),
    /// from git, which prints the diff
    Printed,
}

/// Whether a diff is about a single file that is not tracked.
pub open spec fn is_untracked_file<P>(deltas: Seq<DeltaSummary<P>>) -> bool {
    deltas.len() == 1 && deltas[0].status == DeltaStatus::Untracked
}

/// Chooses where the lines of a diff come from: git prints no lines for a file that is not
/// tracked, so that one is read.
pub fn choose_source<P>(deltas: Vec<DeltaSummary<P>>) -> (r: Result<DiffSource<P>, DiffError>)
    ensures
        deltas@.len() == 1 && deltas@[0].status == DeltaStatus::Untracked ==> match deltas@[0].new_path
        {
            Some(p) => r == Ok::<_, DiffError>(DiffSource::NewFile(p)),
            None => r matches Err(DiffError::Generic(m)) && m@ == "new file path is unspecified."@,
        },
        !(deltas@.len() == 1 && deltas@[0].status == DeltaStatus::Untracked) ==> r == Ok::<
            _,
            DiffError,
        >(DiffSource::<P>::Printed),
        !is_untracked_file(deltas@) ==> r == Ok::<_, DiffError>(DiffSource::<P>::Printed),
        is_untracked_file(deltas@) ==> match deltas@[0].new_path {
            Some(p) => r == Ok::<_, DiffError>(DiffSource::NewFile(p)),
            None => r matches Err(DiffError::Generic(m)) && m@ == "new file path is unspecified."@,
        },
{
    let mut deltas: Vec<DeltaSummary<P>> = deltas;
    if deltas.len() != 1 {
        return Ok(DiffSource::Printed);
    }
    match deltas.pop() {
        Some(delta) => {
            if delta.status == DeltaStatus::Untracked {
                match delta.new_path {
                    Some(p) => Ok(DiffSource::NewFile(p)),
                    None => Err(DiffError::Generic("new file path is unspecified.".to_string())),
                }
            } else {
                Ok(DiffSource::Printed)
            }
        },
        None => Ok(DiffSource::Printed),
    }
}

/// What stands at a path.
#[derive(Debug, Clone, Copy, PartialEq, Eq, Structural)]
pub enum FileKind {
    /// a symbolic link
    Symlink,
    /// a directory
    Directory,
    /// anything else
    Other,
}

/// How to read what stands at a path.
#[derive(Debug, Clone, Copy, PartialEq, Eq, Structural)]
pub enum ReadAction {
    /// read where the link leads
    ReadLink,
    /// read the file
    ReadFile,
    /// read nothing
    Skip,
}

/// Chooses how to read what stands at a path, if anything is known of it.
pub fn read_action(kind: Option<FileKind>) -> (r: ReadAction)
    ensures
        r == (match kind {
            Some(FileKind::Symlink) => ReadAction::ReadLink,
            Some(FileKind::Other) => ReadAction::ReadFile,
            Some(FileKind::Directory) | None => ReadAction::Skip,
        }),
{
    match kind {
        Some(FileKind::Symlink) => ReadAction::ReadLink,
        Some(FileKind::Other) => ReadAction::ReadFile,
        Some(FileKind::Directory) | None => ReadAction::Skip,
    }
}

/// What reading brought.
#[derive(Debug)]
pub enum ReadOutcome {
    /// nothing was read
    Nothing,
    /// where a link leads, if that is text
    Target(Option<String>),
    /// the bytes of a file
    Contents(Vec<u8>),
}

/// The contents of a new file: those of the file itself, or the text of a link.
pub fn new_file_content(outcome: ReadOutcome) -> (r: Option<Vec<u8>>)
    ensures
        match outcome {
            ReadOutcome::Nothing | ReadOutcome::Target(None) => r is None,
            ReadOutcome::Target(Some(target)) => r matches Some(bytes) && bytes@ == encode_utf8(
                target@,
            ),
            ReadOutcome::Contents(contents) => r == Some(contents),
        },
{
    match outcome {
        ReadOutcome::Nothing => None,
        ReadOutcome::Target(target) => match target {
            Some(target) => Some(slice_to_vec(target.as_str().as_bytes())),
            None => None,
        },
        ReadOutcome::Contents(contents) => Some(contents),
    }
}

/// Puts the diff of a file together from the lines of a patch if they keep within the limits.
pub fn checked_file_diff(lines: Vec<PatchLine>, untracked: bool) -> (r: Result<FileDiff, DiffError>)
    ensures
        match r {
            Ok(diff) => within_limits(patch_views(lines@)) && diff@.well_formed()
                && hunks_compared(diff@.hunks) && shows_patch(
                diff@,
                patch_views(lines@),
                untracked,
            ),
            Err(DiffError::TooLarge) => !within_limits(patch_views(lines@)),
            Err(_) => false,
        },
        r matches Ok(diff) ==> diff@ == file_diff_of(
            patch_views(lines@),
            untracked,
            ByteOrder::Little,
        ) || diff@ == file_diff_of(patch_views(lines@), untracked, ByteOrder::Big),
{
    if fits_limits(&lines) {
        Ok(raw_diff_to_file_diff(&lines, untracked))
    } else {
        Err(DiffError::TooLarge)
    }
}

/// Puts the diff of a file together from the lines that git prints of it. What git prints is about
/// files that it tracks, or of which it only knows that they are there.
pub fn printed_file_diff(lines: Vec<PatchLine>) -> (r: Result<FileDiff, DiffError>)
    ensures
        match r {
            Ok(diff) => within_limits(patch_views(lines@)) && diff@.well_formed()
                && hunks_compared(diff@.hunks) && shows_patch(diff@, patch_views(lines@), false),
            Err(DiffError::TooLarge) => !within_limits(patch_views(lines@)),
            Err(_) => false,
        },
        r matches Ok(diff) ==> !diff.untracked,
        r matches Ok(diff) ==> diff@ == file_diff_of(
            patch_views(lines@),
            false,
            ByteOrder::Little,
        ) || diff@ == file_diff_of(patch_views(lines@), false, ByteOrder::Big),
{
    checked_file_diff(lines, false)
}

/// The bytes of the added lines of a patch, in order.
pub open spec fn added_bytes(lines: Seq<PatchLineView>) -> Seq<u8>
    decreases lines.len(),
{
    if lines.len() == 0 {
        Seq::empty()
    } else {
        let before = added_bytes(lines.drop_last());
        if lines.last().origin == '+' {
            before + lines.last().content
        } else {
            before
        }
    }
}

/// Whether git takes the contents of a file for text: there are some, at most half a gibibyte of
/// them, and none of the first eight thousand bytes is NUL.
pub open spec fn is_text(content: Seq<u8>) -> bool {
    &&& 0 < content.len() <= 0x2000_0000
    &&& forall|i: int| 0 <= i < content.len() && i < 8000 ==> #[trigger] content[i] != 0
}

/// Whether a patch is a line about the file and one hunk that adds lines: its header, added lines,
/// and notes on a missing newline. Only added lines are long.
pub open spec fn adds_one_hunk(lines: Seq<PatchLineView>) -> bool {
    &&& lines.len() > 1
    &&& lines[0].hunk is None
    &&& lines[1].hunk is Some
    &&& lines[1].origin == 'H'
    &&& forall|i: int| 1 <= i < lines.len() ==> (#[trigger] lines[i]).hunk == lines[1].hunk
    &&& forall|i: int|
        1 < i < lines.len() ==> (#[trigger] lines[i]).origin == '+' || lines[i].origin == '<'
    &&& forall|i: int|
        1 <= i < lines.len() && (#[trigger] lines[i]).origin != '+' ==> lines[i].content.len() < 128
}

/// Whether no line of a patch belongs to a hunk.
pub open spec fn has_no_hunk(lines: Seq<PatchLineView>) -> bool {
    forall|i: int| 0 <= i < lines.len() ==> (#[trigger] lines[i]).hunk is None
}

/// Whether a patch makes a new file with these contents: it is empty if they are, each line comes
/// with the sizes of both files, text is added by one hunk, and what is not text has no hunk.
pub open spec fn makes_file(lines: Seq<PatchLineView>, content: Seq<u8>) -> bool {
    &&& lines.len() == 0 <==> content.len() == 0
    &&& forall|i: int|
        0 <= i < lines.len() ==> (#[trigger] lines[i]).old_size == 0 && lines[i].new_size
            == content.len()
    &&& if is_text(content) {
        adds_one_hunk(lines) && added_bytes(lines) == content
    } else {
        has_no_hunk(lines)
    }
}

/// The lines that `Patch::print` prints of the patch that `Patch::from_buffers` makes from nothing
/// to `content` at `path`, if both succeed.
pub uninterp spec fn new_file_patch(content: Seq<u8>, path: Seq<char>) -> Option<
    Seq<PatchLineView>,
>;

/// Calls `git2::Patch::from_buffers` with no old contents, `content` as the new ones and git's own
/// options, and collects what `Patch::print` prints. What lines come is git's affair and is only
/// given a name. There are none exactly if `content` is empty, and each of them comes with the size
/// of the old contents, which is 0, and that of `content`. Text is shown as one hunk that adds all
/// of it line by line; what is not text has no hunk. A path with a NUL character is refused. So are
/// contents that look like an attack on the hash by which git knows them, hence success is not
/// promised. Memory is taken to last.
#[verifier::external_body]
fn print_new_file(content: &[u8], path: &str) -> (r: Result<Vec<PatchLine>, git2::Error>)
    ensures
        match r {
            Ok(lines) => new_file_patch(content@, path@) == Some(patch_views(lines@)),
            Err(_) => new_file_patch(content@, path@) is None,
        },
        r matches Ok(lines) ==> makes_file(patch_views(lines@), content@),
        path@.contains('\0') ==> r is Err,
{
    let mut lines: Vec<PatchLine> = Vec::new();
    let mut patch = Patch::from_buffers(&[], None, content, Some(Path::new(path)), None)?;
    patch.print(&mut |delta, hunk, line| {
        lines.push(PatchLine {
            old_size: delta.old_file().size(),
            new_size: delta.new_file().size(),
            hunk: hunk.map(|h| HunkHeader::new(h.old_start(), h.old_lines(), h.new_start(), h.new_lines())),
            origin: line.origin(),
            old_lineno: line.old_lineno(),
            new_lineno: line.new_lineno(),
            content: line.content().to_vec(),
        });
        true
    })?;
    Ok(lines)
}

/// The one hunk of a patch is one group of all its lines but the first.
proof fn lemma_one_group(lines: Seq<PatchLineView>, k: int)
    requires
        adds_one_hunk(lines),
        1 < k <= lines.len(),
    ensures
        hunk_groups(lines.take(k)) == seq![
            (lines[1].hunk->0, Seq::new((k - 1) as nat, |i: int| line_of(lines[i + 1]))),
        ],
    decreases k,
{
    let header = lines[1].hunk->0;
    let seen = lines.take(k);
    let before = lines.take(k - 1);
    assert(seen.drop_last() =~= before);
    assert(seen.last() == lines[k - 1]);
    let all = Seq::new((k - 1) as nat, |i: int| line_of(lines[i + 1]));
    if k == 2 {
        assert(before.drop_last() =~= Seq::empty());
        assert(before.last() == lines[0]);
        assert(hunk_groups(before.drop_last()) =~= Seq::empty());
        assert(hunk_groups(before) =~= Seq::empty());
        assert(seq![line_of(lines[1])] =~= all);
    } else {
        lemma_one_group(lines, k - 1);
        let some = Seq::new((k - 2) as nat, |i: int| line_of(lines[i + 1]));
        assert(lines[k - 1].hunk == lines[1].hunk);
        assert(hunk_groups(before).drop_last() =~= Seq::empty());
        assert(some.push(line_of(lines[k - 1])) =~= all);
    }
    assert(hunk_groups(seen) =~= seq![(header, all)]);
}

/// A new text file is shown as one hunk: its header, and then lines that are added, or notes on a
/// missing newline, which are shown as deleted.
pub proof fn law_new_text_file(lines: Seq<PatchLineView>, order: ByteOrder)
    requires
        adds_one_hunk(lines),
        lines.len() <= usize::MAX,
    ensures
        ({
            let hunks = file_diff_of(lines, true, order).hunks;
            &&& hunks.len() == 1
            &&& hunks[0].lines.len() == lines.len() - 1
            &&& hunks[0].lines[0].line_type == DiffLineType::Header
            &&& forall|i: int|
                0 <= i < hunks[0].lines.len() ==> {
                    &&& (#[trigger] hunks[0].lines[i]).content == trimmed(
                        text_of(lines[i + 1].content),
                    )
                    &&& i > 0 ==> hunks[0].lines[i].line_type == if lines[i + 1].origin == '+' {
                        DiffLineType::Add
                    } else {
                        DiffLineType::Delete
                    }
                }
        }),
{
    let n = lines.len() as int;
    lemma_one_group(lines, n);
    assert(lines.take(n) =~= lines);
    let group = hunk_groups(lines)[0].1;
    law_with_highlights(group);
    let hunks = file_diff_of(lines, true, order).hunks;
    assert(hunks[0].lines == with_highlights(group));
    assert forall|i: int| 0 <= i < group.len() implies {
        &&& (#[trigger] hunks[0].lines[i]).content == line_of(lines[i + 1]).content
        &&& hunks[0].lines[i].line_type == line_of(lines[i + 1]).line_type
    } by {
        assert(group[i] == line_of(lines[i + 1]));
        assert(group[i].content == with_highlights(group)[i].content);
    }
    assert forall|i: int| 0 < i < group.len() implies (#[trigger] hunks[0].lines[i]).line_type
        == if lines[i + 1].origin == '+' {
        DiffLineType::Add
    } else {
        DiffLineType::Delete
    } by {
        assert(lines[i + 1].origin == '+' || lines[i + 1].origin == '<');
    }
}

/// An added line is no longer than all added lines.
proof fn lemma_added_line(lines: Seq<PatchLineView>, i: int)
    requires
        0 <= i < lines.len(),
        lines[i].origin == '+',
    ensures
        lines[i].content.len() <= added_bytes(lines).len(),
    decreases lines.len(),
{
    if i < lines.len() - 1 {
        lemma_added_line(lines.drop_last(), i);
    }
}

/// Text keeps within the limits.
proof fn lemma_text_fits(lines: Seq<PatchLineView>, content: Seq<u8>)
    requires
        makes_file(lines, content),
        is_text(content),
    ensures
        within_limits(lines),
{
    assert forall|i: int| 0 <= i < lines.len() implies line_within_limits(#[trigger] lines[i]) by {
        if lines[i].origin == '+' {
            lemma_added_line(lines, i);
        }
    }
}

/// Whether `r` is the diff of a new file: the one that shows what git prints of the file, or an
/// error if git prints nothing or too much.
pub open spec fn shows_new_file(
    r: Result<FileDiff, DiffError>,
    content: Seq<u8>,
    path: Seq<char>,
) -> bool {
    match new_file_patch(content, path) {
        Some(lines) => makes_file(lines, content) && if within_limits(lines) {
            r matches Ok(diff) && diff@.well_formed() && hunks_compared(diff@.hunks) && shows_patch(
                diff@,
                lines,
                true,
            )
        } else {
            r == Err::<FileDiff, _>(DiffError::TooLarge)
        },
        None => r matches Err(DiffError::Git(_)),
    }
}

/// The diff of a new file that is not tracked, from its contents, with its size. Text is shown as
/// one hunk that starts with its header and adds all of the contents, and what is not text has no
/// hunks.
pub fn new_file_diff(content: &Vec<u8>, path: &str) -> (r: Result<FileDiff, DiffError>)
    ensures
        shows_new_file(r, content@, path@),
        match new_file_patch(content@, path@) {
            Some(lines) => match r {
                Ok(diff) => within_limits(lines) && (diff@ == file_diff_of(
                    lines,
                    true,
                    ByteOrder::Little,
                ) || diff@ == file_diff_of(lines, true, ByteOrder::Big)),
                Err(e) => !within_limits(lines) && e is TooLarge,
            },
            None => r matches Err(DiffError::Git(_)),
        },
        r matches Ok(diff) ==> diff.untracked,
        r matches Ok(diff) ==> diff.sizes.0 == 0 && diff.sizes.1 == content@.len()
            && diff.size_delta == content@.len(),
        r matches Ok(diff) ==> diff.hunks@.len() == if is_text(content@) {
            1int
        } else {
            0
        },
        is_text(content@) ==> match r {
            Ok(diff) => {
                &&& diff.hunks@[0].lines@.len() == new_file_patch(content@, path@)->0.len() - 1
                &&& diff.hunks@[0].lines@[0].line_type == DiffLineType::Header
            },
            Err(e) => e is Git,
        },
        path@.contains('\0') ==> r is Err,
{
    match print_new_file(content.as_slice(), path) {
        Ok(lines) => {
            let ghost views = patch_views(lines@);
            proof {
                assert(views.len() == lines.len());
                if is_text(content@) {
                    law_new_text_file(views, ByteOrder::Little);
                    law_new_text_file(views, ByteOrder::Big);
                    lemma_text_fits(views, content@);
                } else if hunk_groups(views).len() > 0 {
                    let i = lemma_group_has_line(views);
                }
            }
            let r = checked_file_diff(lines, true);
            proof {
                if r is Ok && is_text(content@) {
                    let diff = r->Ok_0;
                    assert(diff@.hunks[0] == diff.hunks@[0]@);
                    assert(diff@.hunks[0].lines[0] == diff.hunks@[0].lines@[0]@);
                }
            }
            r
        },
        Err(e) => Err(DiffError::Git(e)),
    }
}

/// The diff of a new file that is not tracked, if its contents could be read. `None` if not: then
/// git prints what there is to say about the file.
pub fn diff_after_read(content: Option<Vec<u8>>, path: &str) -> (r: Result<
    Option<FileDiff>,
    DiffError,
>)
    ensures
        match content {
            None => r == Ok::<Option<FileDiff>, DiffError>(None),
            Some(content) => match r {
                Ok(diff) => diff is Some && shows_new_file(Ok(diff->0), content@, path@),
                Err(e) => shows_new_file(Err(e), content@, path@),
            },
        },
        content matches Some(content) ==> match new_file_patch(content@, path@) {
            Some(lines) => match r {
                Ok(diff) => within_limits(lines) && diff is Some && (diff->0@ == file_diff_of(
                    lines,
                    true,
                    ByteOrder::Little,
                ) || diff->0@ == file_diff_of(lines, true, ByteOrder::Big)),
                Err(e) => !within_limits(lines) && e is TooLarge,
            },
            None => r matches Err(DiffError::Git(_)),
        },
{
    match content {
        None => Ok(None),
        Some(content) => match new_file_diff(&content, path) {
            Ok(diff) => Ok(Some(diff)),
            Err(e) => Err(e),
        },
    }
}

} // verus!
