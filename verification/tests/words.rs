//! Tokens, changes between them, and the ranges that are highlighted.
use git_file_diff::change::{ChangeTag, TokenChange};
use git_file_diff::highlight::{
    highlights_of, merge_whitespace_separated_highlights, merged_highlights, text_highlights,
};
use git_file_diff::text::is_newline;
use git_file_diff::token::tokenize_code;
use git_file_diff::InlineHighlight;

fn spans(highlights: &[InlineHighlight]) -> Vec<(usize, usize)> {
    highlights.iter().map(|h| (h.start, h.end)).collect()
}

fn highlights(spans: &[(usize, usize)]) -> Vec<InlineHighlight> {
    spans.iter().map(|&(start, end)| InlineHighlight { start, end }).collect()
}

fn change(tag: ChangeTag, token: &str) -> TokenChange<'_> {
    TokenChange { tag, token }
}

#[test]
fn code_is_split_into_words_blanks_and_single_characters() {
    assert_eq!(
        tokenize_code("let my_var2 =  foo(a, &b);"),
        ["let", " ", "my_var2", " ", "=", "  ", "foo", "(", "a", ",", " ", "&", "b", ")", ";"]
    );
    assert_eq!(tokenize_code("++i"), ["+", "+", "i"]);
    assert_eq!(tokenize_code(" \t x"), [" \t ", "x"]);
}

#[test]
fn empty_text_has_no_tokens() {
    assert!(tokenize_code("").is_empty());
}

#[test]
fn single_tokens() {
    for token in ["word", "_", "   ", "(", "é", "日本語", "\u{3000}\u{2003}", "\u{1f600}"] {
        assert_eq!(tokenize_code(token), [token]);
    }
}

#[test]
fn unicode_decides_beyond_ascii() {
    assert_eq!(
        tokenize_code("naïve\u{3000}x²→y\u{85}z"),
        ["naïve", "\u{3000}", "x²", "→", "y", "\u{85}", "z"]
    );
}

#[test]
fn tokens_join_to_the_text() {
    for text in ["", "a", "a b", "fn f<'a>(s: &'a str) -> T { }", "ä\u{a0}→→ _9", "\t\t", "∀x∈S"] {
        let tokens = tokenize_code(text);
        assert_eq!(tokens.concat(), text);
        assert!(tokens.iter().all(|t| !t.is_empty()));
    }
}

fn is_word(c: char) -> bool {
    c.is_alphanumeric() || c == '_'
}

#[test]
fn tokens_of_joined_texts() {
    let texts = ["a", "ab_1", " ", "\t ", "(", "+=", "x y", "y ", " z", "é", "\u{3000}", "f(", ")"];
    for a in texts {
        for b in texts {
            let whole = format!("{a}{b}");
            let x = a.chars().last().unwrap();
            let y = b.chars().next().unwrap();
            let mut expected: Vec<String> =
                tokenize_code(a).iter().map(|t| t.to_string()).collect();
            let mut rest = tokenize_code(b).into_iter();
            if is_word(x) && is_word(y) || x.is_whitespace() && y.is_whitespace() {
                expected.last_mut().unwrap().push_str(rest.next().unwrap());
            }
            expected.extend(rest.map(|t| t.to_string()));
            assert_eq!(tokenize_code(&whole), expected, "{a:?} {b:?}");
        }
    }
}

#[test]
fn whitespace_is_no_letter_and_no_digit() {
    for c in '\0'..=char::MAX {
        assert!(!(is_word(c) && c.is_whitespace()));
    }
}

#[test]
fn newline_characters() {
    assert!(is_newline('\n'));
    assert!(is_newline('\r'));
    assert!(!is_newline(' '));
    assert!(!is_newline('n'));
}

#[test]
fn changed_tokens_are_found_by_offset() {
    let changes = vec![
        change(ChangeTag::Equal, "é"),
        change(ChangeTag::Delete, "ab"),
        change(ChangeTag::Insert, "c"),
        change(ChangeTag::Equal, "--"),
        change(ChangeTag::Insert, "日"),
        change(ChangeTag::Delete, "z"),
    ];
    let (old, new) = highlights_of(&changes);
    assert_eq!(spans(&old), [(2, 4), (6, 7)]);
    assert_eq!(spans(&new), [(2, 3), (5, 8)]);
}

#[test]
fn whitespace_between_highlights_is_merged() {
    let mut hs = highlights(&[(0, 3), (4, 7), (9, 10)]);
    merge_whitespace_separated_highlights(&mut hs, "foo bar\t x");
    assert_eq!(spans(&hs), [(0, 10)]);
}

#[test]
fn adjacent_highlights_are_merged() {
    let mut hs = highlights(&[(1, 2), (2, 3), (3, 5)]);
    merge_whitespace_separated_highlights(&mut hs, "abcdef");
    assert_eq!(spans(&hs), [(1, 5)]);
}

#[test]
fn other_text_between_highlights_keeps_them_apart() {
    let mut hs = highlights(&[(0, 1), (2, 3), (5, 6)]);
    merge_whitespace_separated_highlights(&mut hs, "a.b .c");
    assert_eq!(spans(&hs), [(0, 1), (2, 3), (5, 6)]);
}

#[test]
fn unicode_whitespace_is_merged() {
    let mut hs = highlights(&[(0, 2), (5, 7), (8, 9)]);
    merge_whitespace_separated_highlights(&mut hs, "é\u{3000}ß.x");
    assert_eq!(spans(&hs), [(0, 7), (8, 9)]);
}

#[test]
fn merging_none_or_one_does_nothing() {
    let mut none = highlights(&[]);
    merge_whitespace_separated_highlights(&mut none, "abc");
    assert!(none.is_empty());
    let mut one = highlights(&[(1, 2)]);
    merge_whitespace_separated_highlights(&mut one, "abc");
    assert_eq!(spans(&one), [(1, 2)]);
}

#[test]
fn merging_twice_changes_nothing() {
    let text = "ab  cd.ef gh";
    let mut hs = highlights(&[(0, 2), (4, 6), (7, 9), (10, 12)]);
    merge_whitespace_separated_highlights(&mut hs, text);
    assert_eq!(spans(&hs), [(0, 6), (7, 12)]);
    merge_whitespace_separated_highlights(&mut hs, text);
    assert_eq!(spans(&hs), [(0, 6), (7, 12)]);
}

#[test]
fn given_changes_are_merged_on_their_own_side() {
    let changes = vec![
        change(ChangeTag::Delete, "foo"),
        change(ChangeTag::Insert, "baz"),
        change(ChangeTag::Equal, " "),
        change(ChangeTag::Delete, "bar"),
        change(ChangeTag::Equal, ";"),
        change(ChangeTag::Insert, "!"),
    ];
    let (old, new) = merged_highlights(&changes, "foo bar;", "baz ;!");
    assert_eq!(spans(&old), [(0, 7)]);
    assert_eq!(spans(&new), [(0, 3), (5, 6)]);
}

#[test]
fn highlights_of_two_texts() {
    let (old, new) = text_highlights("a = b + c", "a = d + c");
    assert_eq!(spans(&old), [(4, 5)]);
    assert_eq!(spans(&new), [(4, 5)]);
    let (old, new) = text_highlights("a = b", "a = b + c");
    assert!(old.is_empty());
    assert_eq!(spans(&new), [(5, 9)]);
    let (old, new) = text_highlights("same", "same");
    assert!(old.is_empty() && new.is_empty());
    let (old, new) = text_highlights("", "x y");
    assert!(old.is_empty());
    assert_eq!(spans(&new), [(0, 3)]);
}

/// What is outside the highlights on both sides, with the whitespace left out, must agree.
#[test]
fn words_outside_the_highlights_are_the_same_on_both_sides() {
    fn words_outside(text: &str, hs: &[InlineHighlight]) -> String {
        let mut outside = String::new();
        let mut at = 0;
        for h in hs {
            outside.push_str(&text[at..h.start]);
            at = h.end;
        }
        outside.push_str(&text[at..]);
        outside.chars().filter(|c| !c.is_whitespace()).collect()
    }
    let pieces = ["a", "b", " ", "+", "é", ""];
    let mut texts = vec![String::new()];
    for _ in 0..4 {
        let longer: Vec<String> =
            texts.iter().flat_map(|t| pieces.iter().map(move |p| format!("{t}{p}"))).collect();
        texts.extend(longer);
        texts.sort();
        texts.dedup();
    }
    let step = 1 + texts.len() / 80;
    for old in texts.iter().step_by(step) {
        for new in texts.iter().step_by(step) {
            let (o, n) = text_highlights(old, new);
            assert_eq!(words_outside(old, &o), words_outside(new, &n), "{old:?} {new:?}");
            assert_eq!(old == new, o.is_empty() && n.is_empty());
            for (text, hs) in [(old, &o), (new, &n)] {
                for pair in hs.windows(2) {
                    let between = &text[pair[0].end..pair[1].start];
                    assert!(between.chars().any(|c| !c.is_whitespace()));
                }
            }
        }
    }
}

/// More tokens than are compared one by one.
#[test]
fn long_lines() {
    let old: String = (0..300).map(|i| format!("w{i} ")).collect();
    let new = old.replace("w150 ", "other ");
    let (o, n) = text_highlights(&old, &new);
    assert_eq!(o.len(), 1);
    assert_eq!(&old[o[0].start..o[0].end], "w150");
    assert_eq!(n.len(), 1);
    assert_eq!(&new[n[0].start..n[0].end], "other");
}
