use commits_of_interest::entries::{ListEntry, entries_from_commits, first_entry, format_proposed_changelog};
use commits_of_interest::git::{CommitInfo, FileDiff};

fn make_commit(short_id: &str, oid: &str, message: &str, pr: Option<u64>) -> CommitInfo {
    CommitInfo {
        short_id: short_id.to_owned(),
        oid: oid.to_owned(),
        message: message.to_owned(),
        pr,
        file_diffs: Vec::new(),
    }
}

fn make_commit_with_files(
    short_id: &str,
    oid: &str,
    message: &str,
    pr: Option<u64>,
    paths: &[&str],
) -> CommitInfo {
    CommitInfo {
        short_id: short_id.to_owned(),
        oid: oid.to_owned(),
        message: message.to_owned(),
        pr,
        file_diffs: paths
            .iter()
            .map(|path| FileDiff {
                path: path.to_string(),
                lines: Vec::new(),
            })
            .collect(),
    }
}

#[test]
fn lib_format_proposed_changelog_basic() {
    let commits = vec![
        make_commit(
            "abc1234",
            "abc1234abc1234abc1234abc1234abc1234abc1234",
            "Fix the widget",
            Some(42),
        ),
        make_commit(
            "def5678",
            "def5678def5678def5678def5678def5678def5678",
            "Update tests",
            None,
        ),
    ];
    let entries = entries_from_commits(&commits);
    let content = format_proposed_changelog(&entries, &commits, "owner", "repo");
    assert_eq!(
        content,
        "\
- Fix the widget [abc1234](https://github.com/owner/repo/commit/abc1234abc1234abc1234abc1234abc1234abc1234)
- Update tests [def5678](https://github.com/owner/repo/commit/def5678def5678def5678def5678def5678def5678)
"
    );
}

#[test]
fn lib_entries_groups_by_pr() {
    let commits = vec![
        make_commit("aaa", "aaa", "first", Some(1)),
        make_commit("bbb", "bbb", "second", Some(2)),
        make_commit("ccc", "ccc", "third", Some(1)),
    ];
    let entries = entries_from_commits(&commits);

    // PR #1 group comes first (first appearance), then PR #2.
    let commit_indices: Vec<usize> = entries
        .iter()
        .filter_map(|entry| match entry {
            ListEntry::Commit { commit_idx, .. } => Some(*commit_idx),
            _ => None,
        })
        .collect();
    assert_eq!(commit_indices, vec![0, 2, 1]);
}

#[test]
fn lib_entries_pr_label_on_first_commit_only() {
    let commits = vec![
        make_commit("aaa", "aaa", "first", Some(5)),
        make_commit("bbb", "bbb", "second", Some(5)),
    ];
    let entries = entries_from_commits(&commits);

    let labels: Vec<Option<&str>> = entries
        .iter()
        .filter_map(|entry| match entry {
            ListEntry::Commit { pr_label, .. } => Some(pr_label.as_deref()),
            _ => None,
        })
        .collect();
    assert_eq!(labels, vec![Some("#5"), None]);
}

#[test]
fn lib_entries_unknown_pr_uses_question_marks() {
    let commits = vec![make_commit("aaa", "aaa", "orphan", None)];
    let entries = entries_from_commits(&commits);

    let label = match &entries[0] {
        ListEntry::Commit { pr_label, .. } => pr_label.as_deref(),
        _ => panic!("expected Commit entry"),
    };
    assert_eq!(label, Some("??"));
}

#[test]
fn lib_entries_indent_is_global_maximum() {
    // "#1234" is 5 chars + 1 space = 6. "#1" is 2 chars + 1 space = 3.
    let commits = vec![
        make_commit("aaa", "aaa", "first", Some(1234)),
        make_commit("bbb", "bbb", "second", Some(1)),
    ];
    let entries = entries_from_commits(&commits);

    let indents: Vec<usize> = entries
        .iter()
        .map(|entry| match entry {
            ListEntry::Commit { indent, .. } | ListEntry::Path { indent, .. } => *indent,
        })
        .collect();
    assert!(indents.iter().all(|&indent| indent == 6));
}

#[test]
fn lib_entries_interleaves_paths() {
    let commits = vec![make_commit_with_files(
        "aaa",
        "aaa",
        "msg",
        Some(1),
        &["src/lib.rs", "src/main.rs"],
    )];
    let entries = entries_from_commits(&commits);

    // Should be: Commit, Path(0), Path(1).
    assert_eq!(entries.len(), 3);
    assert!(matches!(entries[0], ListEntry::Commit { .. }));
    assert!(matches!(entries[1], ListEntry::Path { file_idx: 0, .. }));
    assert!(matches!(entries[2], ListEntry::Path { file_idx: 1, .. }));
}

#[test]
fn lib_first_entry_finds_first_path() {
    let commits = vec![make_commit_with_files(
        "aaa",
        "aaa",
        "msg",
        Some(1),
        &["src/lib.rs"],
    )];
    let entries = entries_from_commits(&commits);

    // Entry 0 is a Commit, entry 1 is the first Path.
    assert_eq!(first_entry(&entries), Some(1));
}

#[test]
fn lib_first_entry_returns_none_when_no_paths() {
    let commits = vec![make_commit("aaa", "aaa", "msg", Some(1))];
    let entries = entries_from_commits(&commits);

    assert_eq!(first_entry(&entries), None);
}
