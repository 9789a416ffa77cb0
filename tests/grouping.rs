use commits_of_interest::entries::{ListEntry, entries_from_commits, first_entry, format_proposed_changelog};
use commits_of_interest::git::{CommitInfo, FileDiff};
use commits_of_interest::render::{LineStyle, SpanStyle, build_items, colorize_diff_line};
use commits_of_interest::git::DiffLine;

fn commit(id: &str, pr: Option<u64>, paths: &[&str]) -> CommitInfo {
    CommitInfo {
        short_id: id.to_owned(),
        oid: format!("{id}{id}"),
        message: format!("message {id}"),
        pr,
        file_diffs: paths
            .iter()
            .map(|p| FileDiff { path: p.to_string(), lines: Vec::new() })
            .collect(),
    }
}

#[derive(Debug, PartialEq)]
enum Row {
    C(usize, Option<String>, usize),
    P(usize, usize, usize),
}

fn rows(entries: &[ListEntry]) -> Vec<Row> {
    entries
        .iter()
        .map(|e| match e {
            ListEntry::Commit { commit_idx, pr_label, indent } => {
                Row::C(*commit_idx, pr_label.clone(), *indent)
            }
            ListEntry::Path { commit_idx, file_idx, indent } => Row::P(*commit_idx, *file_idx, *indent),
        })
        .collect()
}

#[test]
fn empty_input_gives_empty_list() {
    let entries = entries_from_commits(&[]);
    assert!(entries.is_empty());
    assert_eq!(first_entry(&entries), None);
}

#[test]
fn dropped_commit_leaves_nothing_to_list() {
    // The only commit had no retained file, so it never reached the builder.
    let commits: Vec<CommitInfo> = Vec::new();
    assert!(entries_from_commits(&commits).is_empty());
}

#[test]
fn pre_filtered_commit_is_absent_and_group_joins() {
    let commits = vec![commit("aaa", Some(1), &["a.rs", "b.rs"]), commit("ccc", Some(1), &["c.rs"])];
    let entries = entries_from_commits(&commits);
    assert_eq!(
        rows(&entries),
        vec![
            Row::C(0, Some("#1".to_owned()), 3),
            Row::P(0, 0, 3),
            Row::P(0, 1, 3),
            Row::C(1, None, 3),
            Row::P(1, 0, 3),
        ]
    );
}

#[test]
fn length_is_commits_plus_files() {
    let commits = vec![
        commit("a", Some(7), &["x", "y"]),
        commit("b", None, &["z"]),
        commit("c", Some(7), &["u", "v", "w"]),
        commit("d", Some(12), &["t"]),
    ];
    let entries = entries_from_commits(&commits);
    let n_commit_rows = entries.iter().filter(|e| matches!(e, ListEntry::Commit { .. })).count();
    assert_eq!(n_commit_rows, 4);
    assert_eq!(entries.len(), 4 + 7);
    for e in &entries {
        if let ListEntry::Path { commit_idx, file_idx, .. } = e {
            assert!(*file_idx < commits[*commit_idx].file_diffs.len());
        }
    }
}

#[test]
fn groups_are_contiguous_stable_and_in_first_appearance_order() {
    let commits = vec![
        commit("a", None, &["x"]),
        commit("b", Some(3), &["x"]),
        commit("c", None, &["x"]),
        commit("d", Some(9), &["x"]),
        commit("e", Some(3), &["x"]),
        commit("f", None, &["x"]),
    ];
    let entries = entries_from_commits(&commits);
    let order: Vec<usize> = entries
        .iter()
        .filter_map(|e| match e {
            ListEntry::Commit { commit_idx, .. } => Some(*commit_idx),
            _ => None,
        })
        .collect();
    assert_eq!(order, vec![0, 2, 5, 1, 4, 3]);
    let labels: Vec<Option<String>> = entries
        .iter()
        .filter_map(|e| match e {
            ListEntry::Commit { pr_label, .. } => Some(pr_label.clone()),
            _ => None,
        })
        .collect();
    assert_eq!(
        labels,
        vec![Some("??".to_owned()), None, None, Some("#3".to_owned()), None, Some("#9".to_owned())]
    );
}

#[test]
fn indent_uses_widest_label() {
    let commits = vec![commit("aaa", Some(1234), &["p"]), commit("bbb", Some(1), &["q"])];
    let entries = entries_from_commits(&commits);
    for e in &entries {
        match e {
            ListEntry::Commit { indent, .. } | ListEntry::Path { indent, .. } => assert_eq!(*indent, 6),
        }
    }
}

#[test]
fn indent_for_question_marks_only() {
    let entries = entries_from_commits(&[commit("a", None, &["p"])]);
    assert!(matches!(entries[0], ListEntry::Commit { indent: 3, .. }));
}

#[test]
fn indent_for_largest_pr_number() {
    let entries = entries_from_commits(&[commit("a", Some(u64::MAX), &[])]);
    match &entries[0] {
        ListEntry::Commit { pr_label, indent, .. } => {
            assert_eq!(pr_label.as_deref(), Some("#18446744073709551615"));
            assert_eq!(*indent, 22);
        }
        _ => panic!("expected a commit row"),
    }
}

#[test]
fn changelog_follows_grouped_order_and_repeats() {
    let commits = vec![
        commit("aaa", Some(1), &["x"]),
        commit("bbb", Some(2), &["y"]),
        commit("ccc", Some(1), &["z"]),
    ];
    let entries = entries_from_commits(&commits);
    let first = format_proposed_changelog(&entries, &commits, "o", "r");
    let second = format_proposed_changelog(&entries, &commits, "o", "r");
    assert_eq!(first, second);
    assert_eq!(
        first,
        "- message aaa [aaa](https://github.com/o/r/commit/aaaaaa)\n\
         - message ccc [ccc](https://github.com/o/r/commit/cccccc)\n\
         - message bbb [bbb](https://github.com/o/r/commit/bbbbbb)\n"
    );
}

#[test]
fn changelog_of_empty_list_is_empty() {
    assert_eq!(format_proposed_changelog(&[], &[], "o", "r"), "");
}

#[test]
fn rows_show_label_or_indent_then_id_and_title() {
    let commits = vec![commit("aaa", Some(12), &["src/a.rs"]), commit("bbb", Some(12), &[])];
    let entries = entries_from_commits(&commits);
    let items = build_items(&entries, &commits);
    let texts: Vec<Vec<(String, SpanStyle)>> = items
        .iter()
        .map(|row| row.iter().map(|s| (s.text.clone(), s.style)).collect())
        .collect();
    assert_eq!(
        texts,
        vec![
            vec![
                ("#12".to_owned(), SpanStyle::Label),
                (" ".to_owned(), SpanStyle::Plain),
                ("aaa".to_owned(), SpanStyle::ShortId),
                (" ".to_owned(), SpanStyle::Plain),
                ("message aaa".to_owned(), SpanStyle::Plain),
            ],
            vec![
                ("    ".to_owned(), SpanStyle::Plain),
                ("  ".to_owned(), SpanStyle::Plain),
                ("src/a.rs".to_owned(), SpanStyle::Plain),
            ],
            vec![
                ("    ".to_owned(), SpanStyle::Plain),
                ("bbb".to_owned(), SpanStyle::ShortId),
                (" ".to_owned(), SpanStyle::Plain),
                ("message bbb".to_owned(), SpanStyle::Plain),
            ],
        ]
    );
}

#[test]
fn diff_line_styles() {
    let style = |c: char| colorize_diff_line(&DiffLine { origin: c, content: String::new() });
    assert_eq!(style('+'), LineStyle::Added);
    assert_eq!(style('-'), LineStyle::Removed);
    assert_eq!(style('H'), LineStyle::HunkHeader);
    assert_eq!(style('F'), LineStyle::FileHeader);
    assert_eq!(style(' '), LineStyle::Plain);
}

#[test]
fn changelog_ignores_file_rows() {
    let commits = vec![commit("aaa", None, &[])];
    let entries = vec![
        ListEntry::Commit { commit_idx: 0, pr_label: None, indent: 0 },
        ListEntry::Path { commit_idx: 4, file_idx: 9, indent: 0 },
    ];
    assert_eq!(
        format_proposed_changelog(&entries, &commits, "o", "r"),
        "- message aaa [aaa](https://github.com/o/r/commit/aaaaaa)\n"
    );
}
