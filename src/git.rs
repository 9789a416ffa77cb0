//! The records of commit history: a commit, the files it changed and the
//! lines of each file's diff.

use vstd::prelude::*;
use vstd::string::{StrSliceExecFns, StringExecFns};
use crate::text::push_char;

verus! {

/// One commit of interest.
pub struct CommitInfo {
    /// The abbreviated id shown to the user.
    pub short_id: String,
    /// The full hexadecimal id.
    pub oid: String,
    /// The first line of the commit message.
    pub message: String,
    /// The pull request that the commit belongs to, once known.
    pub pr: Option<u64>,
    /// The files it changed that survived the path filter, in diff order.
    pub file_diffs: Vec<FileDiff>,
}

/// The diff of one file of a commit.
pub struct FileDiff {
    /// The repository-relative path, components separated by `/`.
    pub path: String,
    /// The diff lines, in the order the diff engine emitted them.
    pub lines: Vec<DiffLine>,
}

/// One line of a file diff.
pub struct DiffLine {
    /// The origin marker: `+`, `-`, ` `, `H` (hunk header), `F` (file header), ...
    pub origin: char,
    /// The text of the line, without trailing newlines.
    pub content: String,
}

/// The number of retained files of commit `i`.
pub open spec fn file_count(cs: Seq<CommitInfo>, i: int) -> nat {
    cs[i].file_diffs@.len()
}

/// A value that has a full hexadecimal id, of which the first seven
/// characters are shown.
pub trait ShortId {
    /// The characters of the full id.
    spec fn id_chars(&self) -> Seq<char>;

    /// The first seven characters of the id.
    fn short_id(&self) -> (r: String)
        requires
            self.id_chars().len() >= 7,
        ensures
            r@ == self.id_chars().take(7),
    ;
}

impl ShortId for String {
    open spec fn id_chars(&self) -> Seq<char> {
        self@
    }

    fn short_id(&self) -> (r: String) {
        self.as_str().substring_char(0, 7).to_owned()
    }
}

/// Drops one trailing carriage return from a line that a newline ended.
pub open spec fn strip_cr(l: Seq<char>, ended: bool) -> Seq<char> {
    if ended && l.len() > 0 && l.last() == '\r' {
        l.drop_last()
    } else {
        l
    }
}

/// The title shown for a commit message: its first line, or
/// `<no message>` when it has none.
pub open spec fn is_title(message: Option<Seq<char>>, r: Seq<char>) -> bool {
    match message {
        Some(m) if m.len() > 0 => exists|k: int|
            0 <= k <= m.len() && (k == m.len() || m[k] == '\n') && (forall|h: int|
                0 <= h < k ==> #[trigger] m[h] != '\n') && r == strip_cr(#[trigger] m.take(k), k < m.len()),
        _ => r == "<no message>"@,
    }
}

/// The first line of a commit message, without its line ending, or
/// `<no message>` for a missing or empty message.
pub fn first_line(message: Option<&str>) -> (r: String)
    ensures
        is_title(
            match message {
                Some(m) => Some(m@),
                None => None,
            },
            r@,
        ),
{
    match message {
        Some(m) => {
            let n = m.unicode_len();
            if n == 0 {
                return String::from_str("<no message>");
            }
            let mut line = String::new();
            let mut k: usize = 0;
            while k < n && m.get_char(k) != '\n'
                invariant
                    n == m@.len(),
                    k <= n,
                    line@ == m@.take(k as int),
                    forall|h: int| 0 <= h < k ==> #[trigger] m@[h] != '\n',
                decreases n - k,
            {
                push_char(&mut line, m.get_char(k));
                assert(m@.take(k + 1) =~= m@.take(k as int).push(m@[k as int]));
                k += 1;
            }
            assert(k == n || m@[k as int] == '\n');
            let ghost want = strip_cr(m@.take(k as int), k < n);
            let l = line.as_str().unicode_len();
            let r = if k < n && l > 0 && line.as_str().get_char(l - 1) == '\r' {
                line.as_str().substring_char(0, l - 1).to_owned()
            } else {
                line
            };
            assert(r@ =~= want);
            assert(is_title(Some(m@), r@));
            r
        },
        None => String::from_str("<no message>"),
    }
}

/// `s` without its trailing newlines.
pub open spec fn strip_newlines(s: Seq<char>) -> Seq<char>
    decreases s.len(),
{
    if s.len() > 0 && s.last() == '\n' {
        strip_newlines(s.drop_last())
    } else {
        s
    }
}

/// A diff line with origin marker `origin` and text `content`, trailing
/// newlines removed.
pub fn diff_line(origin: char, content: &str) -> (r: DiffLine)
    ensures
        r.origin == origin,
        r.content@ == strip_newlines(content@),
{
    let mut e = content.unicode_len();
    assert(content@.take(e as int) =~= content@);
    while e > 0 && content.get_char(e - 1) == '\n'
        invariant
            e <= content@.len(),
            strip_newlines(content@) == strip_newlines(content@.take(e as int)),
        decreases e,
    {
        assert(content@.take(e as int).drop_last() =~= content@.take(e - 1));
        e -= 1;
    }
    DiffLine { origin, content: content.substring_char(0, e).to_owned() }
}

/// The record of a commit, or `None` when no changed file survived the
/// filter: such a commit is not of interest.
pub fn build_commit_info(
    short_id: String,
    oid: String,
    message: Option<&str>,
    file_diffs: Vec<FileDiff>,
) -> (r: Option<CommitInfo>)
    ensures
        file_diffs@.len() == 0 ==> r is None,
        file_diffs@.len() > 0 ==> (r matches Some(c) && c.short_id == short_id && c.oid == oid
            && is_title(
            match message {
                Some(m) => Some(m@),
                None => None,
            },
            c.message@,
        ) && c.pr is None && c.file_diffs == file_diffs),
{
    if file_diffs.len() == 0 {
        return None;
    }
    let message = first_line(message);
    Some(CommitInfo { short_id, oid, message, pr: None, file_diffs })
}

} // verus!
