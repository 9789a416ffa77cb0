//! What each list row and diff line shows, independent of the terminal.

use vstd::prelude::*;
use vstd::string::StringExecFns;
use crate::entries::{EntryView, ListEntry, entries_in_range, entries_view};
use crate::git::{CommitInfo, DiffLine};
use crate::text::push_char;

verus! {

/// How a piece of a list row is drawn.
#[derive(Clone, Copy, PartialEq, Eq, Structural, Debug)]
pub enum SpanStyle {
    Plain,
    Label,
    ShortId,
}

/// A piece of a list row.
pub struct Segment {
    pub text: String,
    pub style: SpanStyle,
}

/// How a diff line is drawn.
#[derive(Clone, Copy, PartialEq, Eq, Structural, Debug)]
pub enum LineStyle {
    Added,
    Removed,
    HunkHeader,
    FileHeader,
    Plain,
}

/// The text and style of each piece.
pub open spec fn segments_view(v: Seq<Segment>) -> Seq<(Seq<char>, SpanStyle)> {
    v.map_values(|s: Segment| (s.text@, s.style))
}

/// `n` spaces.
pub open spec fn spaces(n: nat) -> Seq<char> {
    Seq::new(n, |i: int| ' ')
}

/// The pieces of the row for entry `e`: a commit row shows its label (or
/// as many spaces as the indent), the short id and the title; a file row
/// shows the indent, two spaces and the path.
pub open spec fn row_of(e: EntryView, cs: Seq<CommitInfo>) -> Seq<(Seq<char>, SpanStyle)> {
    match e {
        EntryView::Commit { commit, label, indent } => {
            let c = cs[commit as int];
            let head = match label {
                Some(l) => seq![(l, SpanStyle::Label), (seq![' '], SpanStyle::Plain)],
                None => seq![(spaces(indent as nat), SpanStyle::Plain)],
            };
            head + seq![
                (c.short_id@, SpanStyle::ShortId),
                (seq![' '], SpanStyle::Plain),
                (c.message@, SpanStyle::Plain),
            ]
        },
        EntryView::Path { commit, file, indent } => seq![
            (spaces(indent as nat), SpanStyle::Plain),
            (seq![' ', ' '], SpanStyle::Plain),
            (cs[commit as int].file_diffs@[file as int].path@, SpanStyle::Plain),
        ],
    }
}

/// A string of `n` spaces.
fn space_string(n: usize) -> (r: String)
    ensures
        r@ == spaces(n as nat),
{
    let mut s = String::new();
    let mut i: usize = 0;
    while i < n
        invariant
            i <= n,
            s@ == spaces(i as nat),
        decreases n - i,
    {
        push_char(&mut s, ' ');
        assert(s@ =~= spaces((i + 1) as nat));
        i += 1;
    }
    s
}

/// A piece drawn plain.
fn plain(text: String) -> (r: Segment)
    ensures
        r.text@ == text@,
        r.style == SpanStyle::Plain,
{
    Segment { text, style: SpanStyle::Plain }
}

/// The pieces of each row of the list, in list order.
pub fn build_items(entries: &[ListEntry], commits: &[CommitInfo]) -> (r: Vec<Vec<Segment>>)
    requires
        entries_in_range(entries_view(entries@), commits@),
    ensures
        r@.len() == entries@.len(),
        forall|p: int|
            0 <= p < r@.len() ==> segments_view(#[trigger] r@[p]@) == row_of(
                entries@[p]@,
                commits@,
            ),
{
    let mut items: Vec<Vec<Segment>> = Vec::new();
    let mut p: usize = 0;
    while p < entries.len()
        invariant
            p <= entries@.len(),
            entries_in_range(entries_view(entries@), commits@),
            items@.len() == p,
            forall|q: int|
                0 <= q < p ==> segments_view(#[trigger] items@[q]@) == row_of(
                    entries@[q]@,
                    commits@,
                ),
        decreases entries@.len() - p,
    {
        assert(entries_view(entries@)[p as int] == entries@[p as int]@);
        let mut row: Vec<Segment> = Vec::new();
        match &entries[p] {
            ListEntry::Commit { commit_idx, pr_label, indent } => {
                let commit = &commits[*commit_idx];
                match pr_label {
                    Some(label) => {
                        row.push(Segment { text: label.clone(), style: SpanStyle::Label });
                        row.push(plain(String::from_str(" ")));
                    },
                    None => {
                        row.push(plain(space_string(*indent)));
                    },
                }
                row.push(Segment { text: commit.short_id.clone(), style: SpanStyle::ShortId });
                row.push(plain(String::from_str(" ")));
                row.push(plain(commit.message.clone()));
                proof {
                    reveal_strlit(" ");
                    assert(" "@ =~= seq![' ']);
                    let e = entries@[p as int]@;
                    assert(e == EntryView::Commit { commit: *commit_idx, label: crate::entries::label_view(*pr_label), indent: *indent });
                    assert(segments_view(row@) =~= row_of(e, commits@));
                }
            },
            ListEntry::Path { commit_idx, file_idx, indent } => {
                row.push(plain(space_string(*indent)));
                row.push(plain(String::from_str("  ")));
                row.push(plain(commits[*commit_idx].file_diffs[*file_idx].path.clone()));
                proof {
                    reveal_strlit("  ");
                    assert("  "@ =~= seq![' ', ' ']);
                    assert(segments_view(row@) =~= row_of(entries@[p as int]@, commits@));
                }
            },
        }
        items.push(row);
        p += 1;
    }
    items
}

/// The style of a diff line with origin marker `origin`.
pub open spec fn line_style(origin: char) -> LineStyle {
    if origin == '+' {
        LineStyle::Added
    } else if origin == '-' {
        LineStyle::Removed
    } else if origin == 'H' {
        LineStyle::HunkHeader
    } else if origin == 'F' {
        LineStyle::FileHeader
    } else {
        LineStyle::Plain
    }
}

/// How a diff line is drawn: added and removed lines, hunk headers and
/// file headers stand out; the rest is plain.
pub fn colorize_diff_line(dl: &DiffLine) -> (r: LineStyle)
    ensures
        r == line_style(dl.origin),
{
    match dl.origin {
        '+' => LineStyle::Added,
        '-' => LineStyle::Removed,
        'H' => LineStyle::HunkHeader,
        'F' => LineStyle::FileHeader,
        _ => LineStyle::Plain,
    }
}

} // verus!
