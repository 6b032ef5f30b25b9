//! Which lines are paired, and which of their words are highlighted.
use git_file_diff::{add_inline_highlights, DiffLine, DiffLinePosition, DiffLineType};

#[test]
fn test_add_inline_highlights_pairing() {
    // Case 1: 1 Delete vs 2 Adds where one Add is very similar.
    let mut lines = vec![
        DiffLine {
            content: "// printToolCallLine prints a single line describing the tool call.".into(),
            line_type: DiffLineType::Delete,
            position: DiffLinePosition::default(),
            inline_highlights: Vec::new(),
        },
        DiffLine {
            content: "// printToolCallLine prints a tool call line WITHOUT a trailing newline so that".into(),
            line_type: DiffLineType::Add,
            position: DiffLinePosition::default(),
            inline_highlights: Vec::new(),
        },
        DiffLine {
            content: "// printToolCallDone can append elapsed time on the same line.".into(),
            line_type: DiffLineType::Add,
            position: DiffLinePosition::default(),
            inline_highlights: Vec::new(),
        },
    ];

    add_inline_highlights(&mut lines);

    // The delete line and the first add line should be paired and have inline highlights.
    assert!(!lines[0].inline_highlights.is_empty());
    assert!(!lines[1].inline_highlights.is_empty());
    // The second add line is dissimilar and should have no inline highlights.
    assert!(lines[2].inline_highlights.is_empty());

    // Case 2: 4 Deletes vs 1 Add (completely different).
    // None should be highlighted.
    let mut lines2 = vec![
        DiffLine {
            content: "err := huh.NewInput().".into(),
            line_type: DiffLineType::Delete,
            position: DiffLinePosition::default(),
            inline_highlights: Vec::new(),
        },
        DiffLine {
            content: "Prompt(\"fai> \").".into(),
            line_type: DiffLineType::Delete,
            position: DiffLinePosition::default(),
            inline_highlights: Vec::new(),
        },
        DiffLine {
            content: "Value(&input).".into(),
            line_type: DiffLineType::Delete,
            position: DiffLinePosition::default(),
            inline_highlights: Vec::new(),
        },
        DiffLine {
            content: "Run()".into(),
            line_type: DiffLineType::Delete,
            position: DiffLinePosition::default(),
            inline_highlights: Vec::new(),
        },
        DiffLine {
            content: "fmt.Print(fai.AnsiCyan + fai.AnsiBold + \"fai> \" + fai.AnsiReset)".into(),
            line_type: DiffLineType::Add,
            position: DiffLinePosition::default(),
            inline_highlights: Vec::new(),
        },
    ];

    add_inline_highlights(&mut lines2);
    assert!(lines2.iter().all(|l| l.inline_highlights.is_empty()));

    // Case 3: Whitespace between two word diff colored tokens should be merged.
    let mut lines3 = vec![
        DiffLine {
            content: "foo bar".into(),
            line_type: DiffLineType::Delete,
            position: DiffLinePosition::default(),
            inline_highlights: Vec::new(),
        },
        DiffLine {
            content: "baz qux".into(),
            line_type: DiffLineType::Add,
            position: DiffLinePosition::default(),
            inline_highlights: Vec::new(),
        },
    ];

    add_inline_highlights(&mut lines3);

    // They should have exactly 1 highlight range that spans the entire content.
    assert_eq!(lines3[0].inline_highlights.len(), 1);
    assert_eq!(lines3[0].inline_highlights[0].start, 0);
    assert_eq!(lines3[0].inline_highlights[0].end, 7);

    assert_eq!(lines3[1].inline_highlights.len(), 1);
    assert_eq!(lines3[1].inline_highlights[0].start, 0);
    assert_eq!(lines3[1].inline_highlights[0].end, 7);

    // Case 4: Non-whitespace separated tokens should be tokenized fine-grained.
    let mut lines4 = vec![
        DiffLine {
            content: "artifactVersion=1".into(),
            line_type: DiffLineType::Delete,
            position: DiffLinePosition::default(),
            inline_highlights: Vec::new(),
        },
        DiffLine {
            content: "artifactVersion=2".into(),
            line_type: DiffLineType::Add,
            position: DiffLinePosition::default(),
            inline_highlights: Vec::new(),
        },
    ];

    add_inline_highlights(&mut lines4);

    assert_eq!(lines4[0].inline_highlights.len(), 1);
    assert_eq!(lines4[0].inline_highlights[0].start, 16);
    assert_eq!(lines4[0].inline_highlights[0].end, 17);

    assert_eq!(lines4[1].inline_highlights.len(), 1);
    assert_eq!(lines4[1].inline_highlights[0].start, 16);
    assert_eq!(lines4[1].inline_highlights[0].end, 17);
}

fn line(line_type: DiffLineType, content: &str) -> DiffLine {
    DiffLine {
        content: content.into(),
        line_type,
        position: DiffLinePosition::default(),
        inline_highlights: Vec::new(),
    }
}

fn del(content: &str) -> DiffLine {
    line(DiffLineType::Delete, content)
}

fn add(content: &str) -> DiffLine {
    line(DiffLineType::Add, content)
}

fn highlighted(line: &DiffLine) -> Vec<&str> {
    line.inline_highlights.iter().map(|h| &line.content[h.start..h.end]).collect()
}

#[test]
fn equal_counts_are_paired_in_order() {
    let mut lines = vec![
        del("let a = 1;"),
        del("call(left)"),
        add("let b = 1;"),
        add("call(right)"),
    ];
    add_inline_highlights(&mut lines);
    assert_eq!(highlighted(&lines[0]), ["a"]);
    assert_eq!(highlighted(&lines[1]), ["left"]);
    assert_eq!(highlighted(&lines[2]), ["b"]);
    assert_eq!(highlighted(&lines[3]), ["right"]);
}

#[test]
fn unlike_lines_are_paired_if_there_are_as_many_of_both() {
    let mut lines = vec![del("xyz"), add("123")];
    add_inline_highlights(&mut lines);
    assert_eq!(highlighted(&lines[0]), ["xyz"]);
    assert_eq!(highlighted(&lines[1]), ["123"]);
}

#[test]
fn most_similar_line_is_taken() {
    let mut lines = vec![
        del("one two three four"),
        add("one two nine ten"),
        add("one two three five"),
    ];
    add_inline_highlights(&mut lines);
    assert_eq!(highlighted(&lines[0]), ["four"]);
    assert!(lines[1].inline_highlights.is_empty());
    assert_eq!(highlighted(&lines[2]), ["five"]);
}

#[test]
fn of_equally_similar_lines_the_first_is_taken() {
    let mut lines = vec![del("alpha beta 1"), add("alpha beta 2"), add("alpha beta 3")];
    add_inline_highlights(&mut lines);
    assert_eq!(highlighted(&lines[0]), ["1"]);
    assert_eq!(highlighted(&lines[1]), ["2"]);
    assert!(lines[2].inline_highlights.is_empty());
}

#[test]
fn lines_without_counterpart_are_left_alone() {
    let mut lines = vec![
        add("only added"),
        line(DiffLineType::Unchanged, "same"),
        del("only deleted"),
        line(DiffLineType::Unchanged, "same"),
        del("gone"),
        line(DiffLineType::Header, "@@"),
        add("new"),
    ];
    add_inline_highlights(&mut lines);
    assert!(lines.iter().all(|l| l.inline_highlights.is_empty()));
}

#[test]
fn every_group_of_a_hunk_is_highlighted() {
    let mut lines = vec![
        del("x = 1"),
        add("x = 2"),
        line(DiffLineType::Unchanged, "between"),
        del("y = 1"),
        add("y = 3"),
        del("z = 4"),
        add("z = 5"),
    ];
    add_inline_highlights(&mut lines);
    let words: Vec<Vec<&str>> = lines.iter().map(highlighted).collect();
    assert_eq!(
        words,
        [vec!["1"], vec!["2"], vec![], vec!["1"], vec!["3"], vec!["4"], vec!["5"]]
    );
}

#[test]
fn groups_are_independent() {
    let make = || {
        vec![
            del("a = 1"),
            add("a = 2"),
            del("b = 3"),
            del("c = 4"),
            add("c = 5"),
            line(DiffLineType::Unchanged, "x"),
            add("y"),
            del("z 1"),
            add("z 2"),
        ]
    };
    let mut whole = make();
    add_inline_highlights(&mut whole);
    for border in [0, 2, 5, 6, 7, 9] {
        let mut parts = make();
        let (before, after) = parts.split_at_mut(border);
        add_inline_highlights(before);
        add_inline_highlights(after);
        for (a, b) in whole.iter().zip(&parts) {
            assert_eq!(a.inline_highlights, b.inline_highlights);
        }
    }
}

#[test]
fn identical_pair_has_no_highlights() {
    let mut lines = vec![del("same text"), add("same text")];
    add_inline_highlights(&mut lines);
    assert!(lines.iter().all(|l| l.inline_highlights.is_empty()));
}

#[test]
fn two_empty_lines_are_alike() {
    let mut lines = vec![del(""), add("something else"), add("")];
    lines[2].inline_highlights.push(git_file_diff::InlineHighlight { start: 0, end: 0 });
    add_inline_highlights(&mut lines);
    assert!(lines.iter().all(|l| l.inline_highlights.is_empty()));
}

#[test]
fn highlighting_twice_changes_nothing() {
    let mut lines = vec![del("a b c d"), del("e f"), add("a b x d")];
    add_inline_highlights(&mut lines);
    let once: Vec<Vec<git_file_diff::InlineHighlight>> =
        lines.iter().map(|l| l.inline_highlights.clone()).collect();
    assert_eq!(highlighted(&lines[0]), ["c"]);
    assert_eq!(highlighted(&lines[2]), ["x"]);
    add_inline_highlights(&mut lines);
    for (line, before) in lines.iter().zip(&once) {
        assert_eq!(&line.inline_highlights, before);
    }
}

#[test]
fn highlights_are_byte_ranges() {
    let mut lines = vec![del("größe = ä1"), add("größe = ö2")];
    add_inline_highlights(&mut lines);
    assert_eq!(lines[0].inline_highlights.len(), 1);
    assert_eq!(lines[0].inline_highlights[0].start, 10);
    assert_eq!(lines[0].inline_highlights[0].end, 13);
    assert_eq!(highlighted(&lines[1]), ["ö2"]);
}

#[test]
fn copies_of_a_line_are_equal() {
    let mut lines = vec![del("a = 1"), add("a = 2")];
    add_inline_highlights(&mut lines);
    let copy = lines[0].clone();
    assert_eq!(copy.content, lines[0].content);
    assert_eq!(copy.line_type, lines[0].line_type);
    assert_eq!(copy.position, lines[0].position);
    assert_eq!(copy.inline_highlights, lines[0].inline_highlights);
}
