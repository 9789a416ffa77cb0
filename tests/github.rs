use commits_of_interest::git::CommitInfo;
use commits_of_interest::github::{
    BATCH_SIZE, build_graphql_query, extract_pr, lookup_prs, lookup_prs_batch, parse_github_remote,
    pr_batches,
};

fn commit(oid: &str) -> CommitInfo {
    CommitInfo {
        short_id: oid.chars().take(7).collect(),
        oid: oid.to_owned(),
        message: "m".to_owned(),
        pr: None,
        file_diffs: Vec::new(),
    }
}

fn pair(a: &str, b: &str) -> Option<(String, String)> {
    Some((a.to_owned(), b.to_owned()))
}

#[test]
fn remotes() {
    assert_eq!(parse_github_remote("git@github.com:owner/repo.git"), pair("owner", "repo"));
    assert_eq!(parse_github_remote("https://github.com/owner/repo.git"), pair("owner", "repo"));
    assert_eq!(parse_github_remote("https://github.com/owner/repo"), pair("owner", "repo"));
    assert_eq!(parse_github_remote("https://github.com/a/b/c"), pair("a", "b/c"));
    assert_eq!(parse_github_remote("https://github.com/noslash"), None);
    assert_eq!(parse_github_remote("https://gitlab.com/owner/repo"), None);
    assert_eq!(parse_github_remote(""), None);
}

#[test]
fn query_text() {
    let q = build_graphql_query(&[commit("abc"), commit("def")], "o", "n");
    let item = |i: usize, oid: &str| {
        format!(
            "    c{i}: object(oid: \"{oid}\") {{\n      ... on Commit {{\n        associatedPullRequests(first: 1) {{\n          nodes {{ number }}\n        }}\n      }}\n    }}\n"
        )
    };
    let want = format!(
        "query {{\n  repository(owner: \"o\", name: \"n\") {{\n{}{}  }}\n}}",
        item(0, "abc"),
        item(1, "def")
    );
    assert_eq!(q, want);
    assert_eq!(
        build_graphql_query(&[], "o", "n"),
        "query {\n  repository(owner: \"o\", name: \"n\") {\n  }\n}"
    );
}

#[test]
fn batches_cover_all_commits() {
    assert!(pr_batches(0).is_empty());
    assert_eq!(pr_batches(1), vec![(0, 1)]);
    assert_eq!(pr_batches(BATCH_SIZE), vec![(0, 50)]);
    assert_eq!(pr_batches(120), vec![(0, 50), (50, 100), (100, 120)]);
}

const ANSWER: &str = r#"{"data":{"repository":{
  "c0":{"associatedPullRequests":{"nodes":[{"number":17}]}},
  "c1":{"associatedPullRequests":{"nodes":[]}},
  "c2":null
}}}"#;

#[test]
fn answer_sets_pull_requests() {
    let mut commits = vec![commit("x"), commit("a"), commit("b"), commit("c")];
    commits[3].pr = Some(5);
    assert!(lookup_prs_batch(&mut commits, 1, 4, ANSWER.as_bytes()));
    assert_eq!(commits[0].pr, None);
    assert_eq!(commits[1].pr, Some(17));
    assert_eq!(commits[2].pr, None);
    assert_eq!(commits[3].pr, Some(5));
    assert_eq!(commits[1].oid, "a");
}

#[test]
fn unusable_answers_change_nothing() {
    let mut commits = vec![commit("a")];
    assert!(!lookup_prs_batch(&mut commits, 0, 1, b"not json"));
    assert!(!lookup_prs_batch(&mut commits, 0, 1, br#"{"errors":[]}"#));
    assert!(!lookup_prs_batch(&mut commits, 0, 0, ANSWER.as_bytes()));
    assert_eq!(commits[0].pr, None);
}

#[test]
fn extract_reads_first_node_number() {
    let v: serde_json::Value = serde_json::from_str(
        r#"{"c0":{"associatedPullRequests":{"nodes":[{"number":3},{"number":4}]}},"c1":{"associatedPullRequests":{"nodes":[{"number":-2}]}}}"#,
    )
    .unwrap();
    assert_eq!(extract_pr(&v, "c0"), Some(3));
    assert_eq!(extract_pr(&v, "c1"), None);
    assert_eq!(extract_pr(&v, "c2"), None);
}

#[test]
fn batches_get_their_own_answers() {
    let mut commits: Vec<CommitInfo> = (0..55).map(|i| commit(&format!("{i:07}"))).collect();
    let second = r#"{"data":{"repository":{"c4":{"associatedPullRequests":{"nodes":[{"number":99}]}}}}}"#;
    let responses = vec![None, Some(second.as_bytes().to_vec())];
    assert!(lookup_prs(&mut commits, &responses));
    assert_eq!(commits[54].pr, Some(99));
    assert_eq!(commits[4].pr, None);
    assert!(commits.iter().filter(|c| c.pr.is_some()).count() == 1);
    let mut none: Vec<CommitInfo> = vec![commit("a")];
    assert!(!lookup_prs(&mut none, &[None]));
    assert!(!lookup_prs(&mut none, &[]));
}

#[test]
fn known_pull_requests_are_kept() {
    let mut commits = vec![commit("a"), commit("b")];
    commits[0].pr = Some(5);
    let answer = r#"{"data":{"repository":{
      "c0":{"associatedPullRequests":{"nodes":[{"number":7}]}},
      "c1":{"associatedPullRequests":{"nodes":[{"number":8}]}}
    }}}"#;
    assert!(lookup_prs(&mut commits, &[Some(answer.as_bytes().to_vec())]));
    assert_eq!(commits[0].pr, Some(5));
    assert_eq!(commits[1].pr, Some(8));
}
