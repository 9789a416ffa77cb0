//! The hosting-service side: the repository named by a remote URL, the
//! batched query for the pull requests of commits, and applying its answer.

use vstd::prelude::*;
use vstd::string::{StrSliceExecFns, StringExecFns};
use crate::git::CommitInfo;
use crate::text::{decimal, push_char, push_decimal};

verus! {

/// How many commits one query asks about.
pub const BATCH_SIZE: usize = 50;

/// Whether `s` starts with `p`.
fn starts_with(s: &str, p: &str) -> (r: bool)
    ensures
        r == p@.is_prefix_of(s@),
{
    let n = s.unicode_len();
    let m = p.unicode_len();
    if m > n {
        return false;
    }
    let mut i: usize = 0;
    while i < m
        invariant
            m <= n,
            n == s@.len(),
            m == p@.len(),
            i <= m,
            forall|h: int| 0 <= h < i ==> #[trigger] p@[h] == s@[h],
        decreases m - i,
    {
        if s.get_char(i) != p.get_char(i) {
            return false;
        }
        i += 1;
    }
    assert(p@ =~= s@.subrange(0, m as int));
    true
}

/// Whether `s` ends with `p`.
fn ends_with(s: &str, p: &str) -> (r: bool)
    ensures
        r == p@.is_suffix_of(s@),
{
    let n = s.unicode_len();
    let m = p.unicode_len();
    if m > n {
        return false;
    }
    let d = n - m;
    let mut i: usize = 0;
    while i < m
        invariant
            m <= n,
            d == n - m,
            n == s@.len(),
            m == p@.len(),
            i <= m,
            forall|h: int| 0 <= h < i ==> #[trigger] p@[h] == s@[d + h],
        decreases m - i,
    {
        if s.get_char(d + i) != p.get_char(i) {
            assert(s@.subrange(d as int, n as int)[i as int] == s@[d + i]);
            return false;
        }
        i += 1;
    }
    assert(p@ =~= s@.subrange(d as int, n as int));
    true
}

/// The `owner/name` part of a remote URL of the hosting service, with any
/// `.git` suffix removed.
pub open spec fn remote_path(url: Seq<char>) -> Option<Seq<char>> {
    let rest = if "git@github.com:"@.is_prefix_of(url) {
        Some(url.skip("git@github.com:"@.len() as int))
    } else if "https://github.com/"@.is_prefix_of(url) {
        Some(url.skip("https://github.com/"@.len() as int))
    } else {
        None
    };
    match rest {
        Some(p) => Some(
            if ".git"@.is_suffix_of(p) {
                p.take(p.len() - 4)
            } else {
                p
            },
        ),
        None => None,
    }
}

/// `p` split at its first `/`, if it has one.
pub open spec fn split_first_slash(p: Seq<char>) -> Option<(Seq<char>, Seq<char>)>
    decreases p.len(),
{
    if p.len() == 0 {
        None
    } else if p[0] == '/' {
        Some((seq![], p.skip(1)))
    } else {
        match split_first_slash(p.skip(1)) {
            Some((o, n)) => Some((seq![p[0]] + o, n)),
            None => None,
        }
    }
}

/// The owner and name that a remote URL names.
pub open spec fn remote_owner_name(url: Seq<char>) -> Option<(Seq<char>, Seq<char>)> {
    match remote_path(url) {
        Some(p) => split_first_slash(p),
        None => None,
    }
}

proof fn lemma_split_first_slash(p: Seq<char>, k: int)
    requires
        0 <= k <= p.len(),
        forall|h: int| 0 <= h < k ==> #[trigger] p[h] != '/',
    ensures
        k < p.len() && p[k] == '/' ==> split_first_slash(p) == Some((p.take(k), p.skip(k + 1))),
        k == p.len() ==> split_first_slash(p) is None,
    decreases k,
{
    if k > 0 {
        let q = p.skip(1);
        assert forall|h: int| 0 <= h < k - 1 implies #[trigger] q[h] != '/' by {
            assert(q[h] == p[h + 1]);
        }
        lemma_split_first_slash(q, k - 1);
        if k < p.len() && p[k] == '/' {
            assert(q[k - 1] == p[k]);
            assert(seq![p[0]] + q.take(k - 1) =~= p.take(k));
            assert(q.skip(k) =~= p.skip(k + 1));
        }
    } else if p.len() > 0 && p[0] == '/' {
        assert(p.take(0) =~= Seq::<char>::empty());
    }
}

/// The owner and name of the repository that a remote URL names:
/// `git@github.com:owner/name.git` or `https://github.com/owner/name.git`,
/// the `.git` optional, split at the first `/`.
pub fn parse_github_remote(url: &str) -> (r: Option<(String, String)>)
    ensures
        match r {
            Some(pair) => remote_owner_name(url@) == Some((pair.0@, pair.1@)),
            None => remote_owner_name(url@) is None,
        },
{
    let ssh = "git@github.com:";
    let https = "https://github.com/";
    let n = url.unicode_len();
    let path = if starts_with(url, ssh) {
        url.substring_char(ssh.unicode_len(), n)
    } else if starts_with(url, https) {
        url.substring_char(https.unicode_len(), n)
    } else {
        return None;
    };
    let m = path.unicode_len();
    let suffix = ".git";
    let path = if ends_with(path, suffix) {
        path.substring_char(0, m - suffix.unicode_len())
    } else {
        path
    };
    proof {
        reveal_strlit(".git");
        let want = remote_path(url@);
        assert(want == Some(path@)) by {
            assert(path@ =~= want->0);
        }
    }
    let m = path.unicode_len();
    let mut k: usize = 0;
    while k < m
        invariant
            remote_path(url@) == Some(path@),
            m == path@.len(),
            k <= m,
            forall|h: int| 0 <= h < k ==> #[trigger] path@[h] != '/',
        decreases m - k,
    {
        if path.get_char(k) == '/' {
            let owner = path.substring_char(0, k).to_owned();
            let name = path.substring_char(k + 1, m).to_owned();
            assert(owner@ == path@.take(k as int));
            assert(name@ =~= path@.skip(k + 1));
            proof {
                lemma_split_first_slash(path@, k as int);
            }
            return Some((owner, name));
        }
        k += 1;
    }
    proof {
        lemma_split_first_slash(path@, m as int);
    }
    None
}

/// The name under which the query asks about the `i`-th commit of a batch.
pub open spec fn alias_of(i: nat) -> Seq<char> {
    seq!['c'] + decimal(i)
}

/// The part of the query that asks about one commit.
pub open spec fn query_item(i: nat, oid: Seq<char>) -> Seq<char> {
    "    "@ + alias_of(i) + ": object(oid: \""@ + oid + "\") {\n      ... on Commit {\n        associatedPullRequests(first: 1) {\n          nodes { number }\n        }\n      }\n    }\n"@
}

/// The parts of the query for the first `k` commits.
pub open spec fn query_items(cs: Seq<CommitInfo>, k: nat) -> Seq<char>
    decreases k,
{
    if k == 0 {
        seq![]
    } else {
        query_items(cs, (k - 1) as nat) + query_item((k - 1) as nat, cs[k - 1].oid@)
    }
}

/// The query for the pull requests of the commits `cs` of repository
/// `owner/name`.
pub open spec fn query_text(cs: Seq<CommitInfo>, owner: Seq<char>, name: Seq<char>) -> Seq<char> {
    "query {\n  repository(owner: \""@ + owner + "\", name: \""@ + name + "\") {\n"@ + query_items(
        cs,
        cs.len(),
    ) + "  }\n}"@
}

/// The GraphQL query asking, for each commit, the first pull request
/// associated with it; commit `i` is asked under the alias `c<i>`.
pub fn build_graphql_query(commits: &[CommitInfo], owner: &str, name: &str) -> (r: String)
    requires
        commits@.len() <= u64::MAX,
    ensures
        r@ == query_text(commits@, owner@, name@),
{
    let mut query = String::new();
    query.append("query {\n  repository(owner: \"");
    query.append(owner);
    query.append("\", name: \"");
    query.append(name);
    query.append("\") {\n");
    let ghost head = query@;
    let mut i: usize = 0;
    while i < commits.len()
        invariant
            i <= commits@.len() <= u64::MAX,
            query@ == head + query_items(commits@, i as nat),
        decreases commits@.len() - i,
    {
        query.append("    ");
        push_char(&mut query, 'c');
        push_decimal(&mut query, i as u64);
        query.append(": object(oid: \"");
        query.append(commits[i].oid.as_str());
        query.append("\") {\n      ... on Commit {\n        associatedPullRequests(first: 1) {\n          nodes { number }\n        }\n      }\n    }\n");
        assert(query@ =~= head + query_items(commits@, (i + 1) as nat));
        i += 1;
    }
    query.append("  }\n}");
    query
}

/// Where batch `b` of `n` commits ends.
pub open spec fn batch_end(b: int, n: usize) -> usize {
    if (b + 1) * BATCH_SIZE <= n {
        ((b + 1) * BATCH_SIZE) as usize
    } else {
        n
    }
}

/// The batches of `n` commits, as (start, end) pairs: `BATCH_SIZE` at a
/// time, the last one possibly shorter, together covering them all.
pub fn pr_batches(n: usize) -> (r: Vec<(usize, usize)>)
    ensures
        r@.len() * BATCH_SIZE >= n,
        r@.len() == 0 || (r@.len() - 1) * BATCH_SIZE < n,
        forall|b: int|
            0 <= b < r@.len() ==> #[trigger] r@[b] == ((b * BATCH_SIZE) as usize, batch_end(b, n)),
{
    let mut r: Vec<(usize, usize)> = Vec::new();
    let mut start: usize = 0;
    while start < n
        invariant
            start == r@.len() * BATCH_SIZE,
            start <= n,
            r@.len() == 0 || (r@.len() - 1) * BATCH_SIZE < n,
            forall|b: int|
                0 <= b < r@.len() ==> #[trigger] r@[b] == ((b * BATCH_SIZE) as usize, batch_end(b, n)),
        decreases n - start,
    {
        if n - start >= BATCH_SIZE {
            r.push((start, start + BATCH_SIZE));
            start = start + BATCH_SIZE;
        } else {
            r.push((start, n));
            return r;
        }
    }
    r
}

#[verifier::external_type_specification]
#[verifier::external_body]
pub struct ExValue(serde_json::Value);

/// The JSON value that bytes `b` hold, if they are JSON.
pub uninterp spec fn json_parse(b: Seq<u8>) -> Option<serde_json::Value>;

/// The member `key` of JSON value `v`, if `v` is an object that has it.
pub uninterp spec fn json_field(v: serde_json::Value, key: Seq<char>) -> Option<serde_json::Value>;

/// The elements of JSON value `v`, if it is an array.
pub uninterp spec fn json_items(v: serde_json::Value) -> Option<Seq<serde_json::Value>>;

/// JSON value `v` as a `u64`, if it is a number stored as a non-negative
/// integer.
pub uninterp spec fn json_u64(v: serde_json::Value) -> Option<u64>;

/// Relies on `serde_json::from_slice` into a `serde_json::Value`: the value
/// that the bytes hold, or `None` when they do not parse as one JSON value.
#[verifier::external_body]
fn parse_json(b: &[u8]) -> (r: Option<serde_json::Value>)
    ensures
        r == json_parse(b@),
{
    serde_json::from_slice(b).ok()
}

/// Relies on `serde_json::Value::get` with a string key: the member of an
/// object, `None` for a missing key or a value that is not an object.
#[verifier::external_body]
fn json_get<'a>(v: &'a serde_json::Value, key: &str) -> (r: Option<&'a serde_json::Value>)
    ensures
        match r {
            Some(x) => json_field(*v, key@) == Some(*x),
            None => json_field(*v, key@) is None,
        },
{
    v.get(key)
}

/// Relies on `serde_json::Value::as_array`: the elements of an array.
#[verifier::external_body]
fn json_array(v: &serde_json::Value) -> (r: Option<&Vec<serde_json::Value>>)
    ensures
        match r {
            Some(a) => json_items(*v) == Some(a@),
            None => json_items(*v) is None,
        },
{
    v.as_array()
}

/// Relies on `serde_json::Value::as_u64`: the number, if the value is a
/// number stored as a non-negative integer; `None` for other numbers and
/// other values.
#[verifier::external_body]
fn json_as_u64(v: &serde_json::Value) -> (r: Option<u64>)
    ensures
        r == json_u64(*v),
{
    v.as_u64()
}

/// The member `key` of `v`, if `v` is there.
pub open spec fn field_of(v: Option<serde_json::Value>, key: Seq<char>) -> Option<serde_json::Value> {
    match v {
        Some(x) => json_field(x, key),
        None => None,
    }
}

/// The number of the first pull request that the answer's `repository`
/// member lists for the commit asked under `alias`.
pub open spec fn pr_number_at(repo: serde_json::Value, alias: Seq<char>) -> Option<u64> {
    let nodes = field_of(field_of(json_field(repo, alias), "associatedPullRequests"@), "nodes"@);
    match nodes {
        Some(list) => match json_items(list) {
            Some(items) => if items.len() > 0 {
                match json_field(items[0], "number"@) {
                    Some(num) => json_u64(num),
                    None => None,
                }
            } else {
                None
            },
            None => None,
        },
        None => None,
    }
}

/// The `data.repository` member of an answer, if the answer is JSON and has it.
pub open spec fn response_repository(b: Seq<u8>) -> Option<serde_json::Value> {
    field_of(field_of(json_parse(b), "data"@), "repository"@)
}

/// The pull request number, under `repository.<alias>`, of the first pull
/// request associated with a commit.
pub fn extract_pr(repo: &serde_json::Value, alias: &str) -> (r: Option<u64>)
    ensures
        r == pr_number_at(*repo, alias@),
{
    let commit = match json_get(repo, alias) {
        Some(c) => c,
        None => return None,
    };
    let prs = match json_get(commit, "associatedPullRequests") {
        Some(p) => p,
        None => return None,
    };
    let nodes = match json_get(prs, "nodes") {
        Some(n) => n,
        None => return None,
    };
    let items = match json_array(nodes) {
        Some(a) => a,
        None => return None,
    };
    if items.len() == 0 {
        return None;
    }
    match json_get(&items[0], "number") {
        Some(num) => json_as_u64(num),
        None => None,
    }
}

/// Commit `c` after an answer `response`, where it was asked as the `j`-th
/// of its batch: with the pull request that the answer names, if it had
/// none yet and the answer names one. A pull request, once set, stays.
pub open spec fn annotated(c: CommitInfo, response: Option<Seq<u8>>, j: nat) -> CommitInfo {
    let named = match response {
        Some(b) => match response_repository(b) {
            Some(repo) => pr_number_at(repo, alias_of(j)),
            None => None,
        },
        None => None,
    };
    match named {
        Some(n) if c.pr is None => CommitInfo { pr: Some(n), ..c },
        _ => c,
    }
}

/// Applies the answer to the query for commits `start..end`: each commit
/// without a pull request that the answer associates with one gets its
/// number. Returns
/// whether the answer was usable; the other commits are left as they were.
pub fn lookup_prs_batch(commits: &mut Vec<CommitInfo>, start: usize, end: usize, response: &[u8]) -> (r: bool)
    requires
        start <= end <= old(commits)@.len(),
    ensures
        r == (start < end && response_repository(response@) is Some),
        final(commits)@.len() == old(commits)@.len(),
        forall|k: int|
            0 <= k < old(commits)@.len() ==> #[trigger] final(commits)@[k] == if start <= k < end {
                annotated(old(commits)@[k], Some(response@), (k - start) as nat)
            } else {
                old(commits)@[k]
            },
{
    if start == end {
        return false;
    }
    let json = match parse_json(response) {
        Some(v) => v,
        None => return false,
    };
    let data = match json_get(&json, "data") {
        Some(d) => d,
        None => return false,
    };
    let repo = match json_get(data, "repository") {
        Some(r) => r,
        None => return false,
    };
    let mut k: usize = start;
    while k < end
        invariant
            start <= k <= end <= commits@.len(),
            commits@.len() == old(commits)@.len(),
            response_repository(response@) == Some(*repo),
            forall|h: int|
                0 <= h < old(commits)@.len() ==> #[trigger] commits@[h] == if start <= h < k {
                    annotated(old(commits)@[h], Some(response@), (h - start) as nat)
                } else {
                    old(commits)@[h]
                },
        decreases end - k,
    {
        let mut alias = String::new();
        push_char(&mut alias, 'c');
        push_decimal(&mut alias, (k - start) as u64);
        assert(alias@ =~= alias_of((k - start) as nat));
        if commits[k].pr.is_none() {
            if let Some(n) = extract_pr(repo, alias.as_str()) {
                let mut c = commits.remove(k);
                c.pr = Some(n);
                commits.insert(k, c);
            }
        }
        k += 1;
    }
    true
}

/// The answer for the batch of commit `k`, if one came.
pub open spec fn response_for(responses: Seq<Option<Vec<u8>>>, k: int) -> Option<Seq<u8>> {
    let b = k / BATCH_SIZE as int;
    if b < responses.len() {
        match responses[b] {
            Some(bytes) => Some(bytes@),
            None => None,
        }
    } else {
        None
    }
}

/// Applies the answers to the batched queries: `responses[b]` is the
/// answer to the query for batch `b` of `pr_batches`, or `None` where that
/// query failed. Returns whether some answer was usable.
pub fn lookup_prs(commits: &mut Vec<CommitInfo>, responses: &[Option<Vec<u8>>]) -> (r: bool)
    ensures
        final(commits)@.len() == old(commits)@.len(),
        forall|k: int|
            0 <= k < old(commits)@.len() ==> #[trigger] final(commits)@[k] == annotated(
                old(commits)@[k],
                response_for(responses@, k),
                (k % BATCH_SIZE as int) as nat,
            ),
        r == exists|b: int|
            0 <= b < responses@.len() && b * BATCH_SIZE < old(commits)@.len() && (
            #[trigger] responses@[b] matches Some(bytes) && response_repository(bytes@) is Some),
{
    let n = commits.len();
    let batches = pr_batches(n);
    let mut success = false;
    let mut b: usize = 0;
    while b < batches.len()
        invariant
            n == old(commits)@.len() == commits@.len(),
            batches@.len() * BATCH_SIZE >= n,
            batches@.len() == 0 || (batches@.len() - 1) * BATCH_SIZE < n,
            forall|i: int|
                0 <= i < batches@.len() ==> #[trigger] batches@[i] == (
                    (i * BATCH_SIZE) as usize,
                    batch_end(i, n),
                ),
            b <= batches@.len(),
            forall|k: int|
                0 <= k < n ==> #[trigger] commits@[k] == if k < b * BATCH_SIZE {
                    annotated(old(commits)@[k], response_for(responses@, k), (k % BATCH_SIZE as int) as nat)
                } else {
                    old(commits)@[k]
                },
            success == exists|i: int|
                0 <= i < responses@.len() && i < b && (#[trigger] responses@[i] matches Some(bytes)
                    && response_repository(bytes@) is Some),
        decreases batches@.len() - b,
    {
        let (start, end) = batches[b];
        if b < responses.len() {
            if let Some(bytes) = &responses[b] {
                if lookup_prs_batch(commits, start, end, bytes.as_slice()) {
                    success = true;
                }
            }
        }
        proof {
            assert forall|k: int| 0 <= k < n implies #[trigger] commits@[k] == if k < (b + 1) * BATCH_SIZE {
                annotated(old(commits)@[k], response_for(responses@, k), (k % BATCH_SIZE as int) as nat)
            } else {
                old(commits)@[k]
            } by {
                if b * BATCH_SIZE <= k < (b + 1) * BATCH_SIZE {
                    assert(k / BATCH_SIZE as int == b) by (nonlinear_arith)
                        requires
                            b * 50 <= k < (b + 1) * 50,
                    ;
                    assert(k % BATCH_SIZE as int == k - b * BATCH_SIZE) by (nonlinear_arith)
                        requires
                            b * 50 <= k < (b + 1) * 50,
                    ;
                }
            }
        }
        b += 1;
    }
    assert(b * BATCH_SIZE >= n);
    success
}

} // verus!
