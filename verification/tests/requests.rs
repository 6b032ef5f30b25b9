//! What git is asked for, and what is read.
use git_file_diff::error::DiffError;
use git_file_diff::source::{
    choose_source, diff_request, new_file_content, read_action, Comparison, DeltaStatus,
    DeltaSummary, DiffSource, FileKind, ReadAction, ReadOutcome,
};
use git_file_diff::DiffOptions;

#[test]
fn default_options() {
    let options = DiffOptions::default();
    assert_eq!(
        options,
        DiffOptions { ignore_whitespace: false, context: 3, interhunk_lines: 0 }
    );
}

#[test]
fn staged_changes_are_compared_with_head() {
    let request = diff_request("a/b", true, false, true, None);
    assert_eq!(request.comparison, Comparison::HeadToIndex);
    assert_eq!(request.pathspec, "a/b");
    assert!(!request.reverse);
    assert_eq!(request.options, None);
    assert!(!request.include_untracked);
    assert!(!request.recurse_untracked_dirs);
}

#[test]
fn without_head_the_index_is_compared_with_nothing() {
    let options = Some(DiffOptions::default());
    let request = diff_request("a", true, true, false, options);
    assert_eq!(request.comparison, Comparison::EmptyToIndex);
    assert!(request.reverse);
    assert_eq!(request.options, options);
}

#[test]
fn working_directory_shows_untracked_files() {
    for has_head in [false, true] {
        let request = diff_request("a", false, false, has_head, None);
        assert_eq!(request.comparison, Comparison::IndexToWorkdir);
        assert!(request.include_untracked);
        assert!(request.recurse_untracked_dirs);
    }
}

fn delta(status: DeltaStatus, new_path: Option<&str>) -> DeltaSummary<&str> {
    DeltaSummary { status, new_path }
}

#[test]
fn single_untracked_file_is_read() {
    let source = choose_source(vec![delta(DeltaStatus::Untracked, Some("new"))]).unwrap();
    assert!(matches!(source, DiffSource::NewFile("new")));
}

#[test]
fn untracked_file_without_path() {
    match choose_source(vec![delta(DeltaStatus::Untracked, None)]) {
        Err(DiffError::Generic(message)) => assert_eq!(message, "new file path is unspecified."),
        other => panic!("{other:?}"),
    }
}

#[test]
fn other_diffs_are_printed() {
    let none: Vec<DeltaSummary<&str>> = Vec::new();
    assert!(matches!(choose_source(none), Ok(DiffSource::Printed)));
    for status in [DeltaStatus::Modified, DeltaStatus::Added, DeltaStatus::Ignored] {
        assert!(matches!(choose_source(vec![delta(status, None)]), Ok(DiffSource::Printed)));
    }
    let two = vec![
        delta(DeltaStatus::Untracked, Some("a")),
        delta(DeltaStatus::Untracked, Some("b")),
    ];
    assert!(matches!(choose_source(two), Ok(DiffSource::Printed)));
}

#[test]
fn links_and_files_are_read() {
    assert_eq!(read_action(Some(FileKind::Symlink)), ReadAction::ReadLink);
    assert_eq!(read_action(Some(FileKind::Other)), ReadAction::ReadFile);
    assert_eq!(read_action(Some(FileKind::Directory)), ReadAction::Skip);
    assert_eq!(read_action(None), ReadAction::Skip);
}

#[test]
fn content_of_links_and_files() {
    assert_eq!(
        new_file_content(ReadOutcome::Target(Some("tärget".to_string()))),
        Some("tärget".as_bytes().to_vec())
    );
    assert_eq!(new_file_content(ReadOutcome::Target(None)), None);
    assert_eq!(new_file_content(ReadOutcome::Contents(vec![0, 255])), Some(vec![0, 255]));
    assert_eq!(new_file_content(ReadOutcome::Nothing), None);
}
