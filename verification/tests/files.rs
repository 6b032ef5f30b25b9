//! File diffs, put together from the lines of a patch.
use git_file_diff::error::DiffError;
use git_file_diff::file_diff::{diff_line, file_diff_in, fits_limits};
use git_file_diff::hash::{byte_order_of, header_hash, header_hash_in, ByteOrder};
use git_file_diff::source::{
    checked_file_diff, diff_after_read, new_file_diff, printed_file_diff,
};
use git_file_diff::{
    raw_diff_to_file_diff, DiffLinePosition, DiffLineType, FileDiff, HunkHeader, PatchLine,
};
use std::collections::hash_map::DefaultHasher;
use std::hash::{Hash, Hasher};
use std::path::Path;

const HUNK_A: &str = r"
1   start
2
3
4
5
6   middle
7
8
9
0
1   end";

const HUNK_B: &str = r"
1   start
2   newa
3
4
5
6   middle
7
8
9
0   newb
1   end";

fn std_hash(header: &HunkHeader) -> u64 {
    let mut hasher = DefaultHasher::new();
    header.hash(&mut hasher);
    hasher.finish()
}

fn line(hunk: Option<HunkHeader>, origin: char, content: &[u8]) -> PatchLine {
    PatchLine {
        old_size: 10,
        new_size: 25,
        hunk,
        origin,
        old_lineno: Some(3),
        new_lineno: None,
        content: content.to_vec(),
    }
}

fn printed(old: &str, new: &str) -> Vec<PatchLine> {
    let path = Path::new("bar.txt");
    let mut lines = Vec::new();
    let mut patch = git2::Patch::from_buffers(
        old.as_bytes(),
        Some(path),
        new.as_bytes(),
        Some(path),
        None,
    )
    .unwrap();
    patch
        .print(&mut |delta, hunk, line| {
            lines.push(PatchLine {
                old_size: delta.old_file().size(),
                new_size: delta.new_file().size(),
                hunk: hunk.map(|h| {
                    HunkHeader::new(h.old_start(), h.old_lines(), h.new_start(), h.new_lines())
                }),
                origin: line.origin(),
                old_lineno: line.old_lineno(),
                new_lineno: line.new_lineno(),
                content: line.content().to_vec(),
            });
            true
        })
        .unwrap();
    lines
}

fn contents(diff: &FileDiff, hunk: usize) -> Vec<&str> {
    diff.hunks[hunk].lines.iter().map(|l| &*l.content).collect()
}

#[test]
fn edited_file_has_a_hunk_for_each_change() {
    let diff = raw_diff_to_file_diff(&printed(HUNK_A, HUNK_B), false);
    assert_eq!(diff.hunks.len(), 2);
    assert_eq!(diff.lines, diff.hunks[0].lines.len() + diff.hunks[1].lines.len());
    assert!(!diff.untracked);
    assert_eq!(diff.sizes, (HUNK_A.len() as u64, HUNK_B.len() as u64));
    assert_eq!(diff.size_delta, 14);
    let types: Vec<DiffLineType> = diff.hunks[0].lines.iter().map(|l| l.line_type).collect();
    assert_eq!(types[0], DiffLineType::Header);
    assert_eq!(types[1], DiffLineType::Unchanged);
    let changed: Vec<&str> = diff
        .hunks
        .iter()
        .flat_map(|h| &h.lines)
        .filter(|l| l.line_type == DiffLineType::Add || l.line_type == DiffLineType::Delete)
        .map(|l| &*l.content)
        .collect();
    assert_eq!(changed, ["2", "2   newa", "0", "0   newb"]);
    let highlighted: Vec<&str> = diff
        .hunks
        .iter()
        .flat_map(|h| &h.lines)
        .flat_map(|l| l.inline_highlights.iter().map(move |h| &l.content[h.start..h.end]))
        .collect();
    assert_eq!(highlighted, ["   newa", "   newb"]);
}

#[test]
fn unchanged_file_has_no_hunks() {
    let diff = raw_diff_to_file_diff(&printed(HUNK_A, HUNK_A), false);
    assert!(diff.hunks.is_empty());
    assert_eq!(diff.lines, 0);
}

#[test]
fn no_lines_make_an_empty_diff() {
    let diff = raw_diff_to_file_diff(&Vec::new(), true);
    assert!(diff.hunks.is_empty());
    assert_eq!(diff.lines, 0);
    assert!(diff.untracked);
    assert_eq!(diff.sizes, (0, 0));
    assert_eq!(diff.size_delta, 0);
}

#[test]
fn lines_are_grouped_by_header() {
    let a = HunkHeader::new(1, 2, 1, 3);
    let b = HunkHeader::new(1, 2, 1, 4);
    let lines = vec![
        line(None, 'F', b"diff --git\n"),
        line(Some(a), 'H', b"@@ a\n"),
        line(Some(a), ' ', b"one\n"),
        line(None, 'F', b"between\n"),
        line(Some(a), '+', b"two\n"),
        line(Some(b), 'H', b"@@ b\n"),
        line(Some(a), 'H', b"@@ a again\n"),
    ];
    let diff = raw_diff_to_file_diff(&lines, false);
    assert_eq!(diff.hunks.len(), 3);
    assert_eq!(contents(&diff, 0), ["@@ a", "one", "two"]);
    assert_eq!(contents(&diff, 1), ["@@ b"]);
    assert_eq!(contents(&diff, 2), ["@@ a again"]);
    assert_eq!(diff.lines, 5);
    assert_eq!(diff.hunks[0].header_hash, std_hash(&a));
    assert_eq!(diff.hunks[1].header_hash, std_hash(&b));
    assert_eq!(diff.hunks[0].header_hash, diff.hunks[2].header_hash);
}

#[test]
fn sizes_are_those_of_the_last_line() {
    let mut lines = vec![line(None, 'F', b"x"), line(None, 'B', b"y")];
    lines[1].old_size = i64::MAX as u64;
    lines[1].new_size = 1;
    let diff = raw_diff_to_file_diff(&lines, false);
    assert_eq!(diff.sizes, (i64::MAX as u64, 1));
    assert_eq!(diff.size_delta, 1 - i64::MAX);
}

#[test]
fn limits_are_tested() {
    let mut lines = vec![line(None, 'F', b"x")];
    assert!(fits_limits(&lines));
    lines[0].new_size = i64::MAX as u64 + 1;
    assert!(!fits_limits(&lines));
    assert!(matches!(checked_file_diff(lines, false), Err(DiffError::TooLarge)));
    let mut lines = vec![line(None, 'F', b"x")];
    lines[0].old_size = u64::MAX;
    assert!(matches!(checked_file_diff(lines, false), Err(DiffError::TooLarge)));
    let diff = checked_file_diff(vec![line(None, 'F', b"x")], true).unwrap();
    assert_eq!(diff.sizes, (10, 25));
    assert_eq!(diff.size_delta, 15);
    assert!(diff.untracked);
}

#[test]
fn printed_diff_is_not_untracked() {
    let diff = printed_file_diff(printed(HUNK_A, HUNK_B)).unwrap();
    assert!(!diff.untracked);
    assert_eq!(diff.hunks.len(), 2);
    let mut lines = printed(HUNK_A, HUNK_B);
    lines[0].new_size = u64::MAX;
    assert!(matches!(printed_file_diff(lines), Err(DiffError::TooLarge)));
}

#[test]
fn header_hash_is_that_of_std() {
    for header in [
        HunkHeader::default(),
        HunkHeader::new(1, 2, 3, 4),
        HunkHeader::new(4, 3, 2, 1),
        HunkHeader::new(u32::MAX, 0x0102_0304, 0, 77),
    ] {
        assert_eq!(header_hash(&header), std_hash(&header));
    }
    assert_ne!(
        header_hash(&HunkHeader::new(1, 2, 3, 4)),
        header_hash(&HunkHeader::new(1, 2, 4, 3))
    );
}

#[test]
fn headers_are_hashed_in_the_byte_order_of_the_machine() {
    let order = byte_order_of(&1u32.to_ne_bytes().to_vec());
    let header = HunkHeader::new(1, 2, 3, 0x0a0b_0c0d);
    assert_eq!(header_hash_in(&header, order), std_hash(&header));
    let swapped = HunkHeader::new(
        1u32.swap_bytes(),
        2u32.swap_bytes(),
        3u32.swap_bytes(),
        0x0d0c_0b0a,
    );
    assert_eq!(
        header_hash_in(&swapped, ByteOrder::Big),
        header_hash_in(&header, ByteOrder::Little)
    );
    assert_eq!(byte_order_of(&vec![1, 0, 0, 0]), ByteOrder::Little);
    assert_eq!(byte_order_of(&vec![0, 0, 0, 1]), ByteOrder::Big);
    let lines = vec![line(Some(header), 'H', b"@@\n")];
    for order in [ByteOrder::Little, ByteOrder::Big] {
        let diff = file_diff_in(&lines, false, order);
        assert_eq!(diff.hunks[0].header_hash, header_hash_in(&header, order));
    }
}

#[test]
fn text_is_trimmed_of_newlines_only() {
    let content = |bytes: &[u8]| diff_line(&line(None, ' ', bytes)).content;
    assert_eq!(&*content(b"text\n"), "text");
    assert_eq!(&*content(b"text\r\n"), "text");
    assert_eq!(&*content(b"\n\r text \t\n\n"), " text \t");
    assert_eq!(&*content(b"a\nb\n"), "a\nb");
    assert_eq!(&*content(b"\r\n\n"), "");
    assert_eq!(&*content(b""), "");
    assert_eq!(&*content("é\n".as_bytes()), "é");
    assert_eq!(&*content("\u{2028}\n".as_bytes()), "\u{2028}");
}

#[test]
fn bytes_that_are_not_text_are_replaced() {
    let shown = diff_line(&line(None, '+', b"a\xff\xfeb\xe6\x97\n"));
    assert_eq!(&*shown.content, "a\u{fffd}\u{fffd}b\u{fffd}");
}

#[test]
fn line_keeps_position_and_type() {
    let patch = line(None, '-', b"x");
    let shown = diff_line(&patch);
    assert_eq!(shown.line_type, DiffLineType::Delete);
    assert_eq!(shown.position.old_lineno, Some(3));
    assert_eq!(shown.position.new_lineno, None);
    assert!(shown.inline_highlights.is_empty());
    assert!(shown.position == &patch);
}

#[test]
fn position_is_equal_to_its_line() {
    let patch = line(None, ' ', b"x");
    assert!(DiffLinePosition::from(&patch) == &patch);
    assert!(DiffLinePosition { old_lineno: Some(3), new_lineno: Some(1) } != &patch);
    assert!(DiffLinePosition { old_lineno: None, new_lineno: None } != &patch);
    assert!(DiffLinePosition::default() != &patch);
}

#[test]
fn line_types_by_sigil() {
    let expected = [
        ('H', DiffLineType::Header),
        ('-', DiffLineType::Delete),
        ('<', DiffLineType::Delete),
        ('+', DiffLineType::Add),
        ('>', DiffLineType::Add),
        (' ', DiffLineType::Unchanged),
        ('=', DiffLineType::Unchanged),
        ('F', DiffLineType::Unchanged),
        ('B', DiffLineType::Unchanged),
    ];
    for (origin, line_type) in expected {
        assert_eq!(DiffLineType::from(origin), line_type);
    }
    assert_eq!(DiffLineType::default(), DiffLineType::Unchanged);
}

#[test]
fn new_file_is_shown_line_by_line() {
    let diff = new_file_diff(&b"test\nfoo".to_vec(), "foo/bar.txt").unwrap();
    assert!(diff.untracked);
    assert_eq!(diff.hunks.len(), 1);
    assert_eq!(diff.hunks[0].lines[0].line_type, DiffLineType::Header);
    assert_eq!(&*diff.hunks[0].lines[1].content, "test");
    assert_eq!(diff.hunks[0].lines[1].line_type, DiffLineType::Add);
    assert_eq!(diff.hunks[0].lines[1].position.old_lineno, None);
    assert_eq!(diff.hunks[0].lines[1].position.new_lineno, Some(1));
    assert_eq!(&*diff.hunks[0].lines[2].content, "foo");
    assert_eq!(diff.hunks[0].header_hash, std_hash(&HunkHeader::new(0, 0, 1, 2)));
    assert_eq!(diff.sizes, (0, 8));
    assert_eq!(diff.size_delta, 8);
}

#[test]
fn new_file_is_shown_as_a_whole() {
    for text in ["a\n\nb c\n", "one\ntwo", "\n", "x", "é\n\u{3000}\n", "a\0b\n"] {
        let diff = new_file_diff(&text.as_bytes().to_vec(), "f").unwrap();
        assert_eq!(diff.sizes, (0, text.len() as u64));
        let added: Vec<&str> = diff
            .hunks
            .iter()
            .flat_map(|h| &h.lines)
            .filter(|l| l.line_type == DiffLineType::Add)
            .map(|l| &*l.content)
            .collect();
        if text.contains('\0') {
            assert!(added.is_empty());
        } else {
            assert_eq!(added, text.lines().collect::<Vec<&str>>());
        }
    }
}

#[test]
fn new_text_file_is_one_hunk() {
    let mut late_nul = vec![b'a'; 8000];
    late_nul.push(0);
    let mut early_nul = vec![b'a'; 7999];
    early_nul.push(0);
    let many: String = (0..500).map(|i| format!("line {i}\n")).collect();
    for content in [b"x".to_vec(), b"\n".to_vec(), many.into_bytes(), late_nul, vec![0xff]] {
        let diff = new_file_diff(&content, "f").unwrap();
        assert_eq!(diff.hunks.len(), 1);
        let lines = &diff.hunks[0].lines;
        assert_eq!(lines[0].line_type, DiffLineType::Header);
        assert!(lines[1..lines.len() - 1].iter().all(|l| l.line_type == DiffLineType::Add));
        let last = lines.last().unwrap().line_type;
        let ends = content.last() == Some(&b'\n');
        assert_eq!(last, if ends { DiffLineType::Add } else { DiffLineType::Delete });
        assert_eq!(diff.sizes, (0, content.len() as u64));
    }
    for content in [Vec::new(), vec![0], early_nul] {
        let diff = new_file_diff(&content, "f").unwrap();
        assert!(diff.hunks.is_empty());
        assert_eq!(diff.sizes, (0, content.len() as u64));
    }
}

#[test]
fn new_binary_file_has_its_size() {
    let diff = new_file_diff(&b"\x00\xc7".to_vec(), "bar").unwrap();
    assert_eq!(diff.sizes, (0, 2));
    assert_eq!(diff.size_delta, 2);
    assert!(diff.hunks.is_empty());
    assert_eq!(diff.lines, 0);
}

#[test]
fn new_empty_file_has_no_hunks() {
    let diff = new_file_diff(&Vec::new(), "bar").unwrap();
    assert!(diff.untracked);
    assert!(diff.hunks.is_empty());
    assert_eq!(diff.sizes, (0, 0));
}

#[test]
fn path_with_nul_is_refused() {
    let result = new_file_diff(&b"x".to_vec(), "a\0b");
    assert!(matches!(result, Err(DiffError::Git(_))));
}

#[test]
fn unreadable_file_is_printed_by_git() {
    assert!(diff_after_read(None, "bar").unwrap().is_none());
    let diff = diff_after_read(Some(b"test".to_vec()), "foo/foo.txt").unwrap().unwrap();
    assert_eq!(&*diff.hunks[0].lines[1].content, "test");
    assert!(matches!(diff_after_read(Some(Vec::new()), "\0"), Err(DiffError::Git(_))));
}

#[test]
fn copies_of_a_file_diff_are_equal() {
    let diff = raw_diff_to_file_diff(&printed(HUNK_A, HUNK_B), false);
    let copy = diff.clone();
    assert_eq!(format!("{copy:?}"), format!("{diff:?}"));
}
