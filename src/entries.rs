//! The navigable entry list: commits grouped by pull request, each commit
//! followed by the files it changed.

use vstd::prelude::*;
use vstd::string::{StrSliceExecFns, StringExecFns};
use crate::git::{CommitInfo, file_count};
use crate::text::{decimal, push_char, push_decimal, lemma_decimal_len};

verus! {

/// One row of the list: a commit header or one of the commit's files.
pub enum ListEntry {
    Commit { commit_idx: usize, pr_label: Option<String>, indent: usize },
    Path { commit_idx: usize, file_idx: usize, indent: usize },
}

/// What a [`ListEntry`] holds, with the label as characters.
pub enum EntryView {
    Commit { commit: usize, label: Option<Seq<char>>, indent: usize },
    Path { commit: usize, file: usize, indent: usize },
}

/// The characters of an optional label.
pub open spec fn label_view(l: Option<String>) -> Option<Seq<char>> {
    match l {
        Some(s) => Some(s@),
        None => None,
    }
}

impl View for ListEntry {
    type V = EntryView;

    open spec fn view(&self) -> EntryView {
        match self {
            ListEntry::Commit { commit_idx, pr_label, indent } => EntryView::Commit {
                commit: *commit_idx,
                label: label_view(*pr_label),
                indent: *indent,
            },
            ListEntry::Path { commit_idx, file_idx, indent } => EntryView::Path {
                commit: *commit_idx,
                file: *file_idx,
                indent: *indent,
            },
        }
    }
}

/// What each entry of `es` holds.
pub open spec fn entries_view(es: Seq<ListEntry>) -> Seq<EntryView> {
    es.map_values(|e: ListEntry| e@)
}

/// The group label of a commit: `#` and the pull request number, or `??`.
pub open spec fn pr_label(c: CommitInfo) -> Seq<char> {
    match c.pr {
        Some(n) => seq!['#'] + decimal(n as nat),
        None => seq!['?', '?'],
    }
}

/// The distinct labels of the first `k` commits, in order of first appearance.
pub open spec fn labels_upto(cs: Seq<CommitInfo>, k: nat) -> Seq<Seq<char>>
    decreases k,
{
    if k == 0 {
        seq![]
    } else {
        let ls = labels_upto(cs, (k - 1) as nat);
        let l = pr_label(cs[k - 1]);
        if ls.contains(l) {
            ls
        } else {
            ls.push(l)
        }
    }
}

/// The positions among the first `k` commits whose label is `l`, ascending.
pub open spec fn members(cs: Seq<CommitInfo>, l: Seq<char>, k: nat) -> Seq<usize>
    decreases k,
{
    if k == 0 {
        seq![]
    } else {
        let m = members(cs, l, (k - 1) as nat);
        if pr_label(cs[k - 1]) == l {
            m.push((k - 1) as usize)
        } else {
            m
        }
    }
}

/// The header of commit `c` followed by one row per file.
pub open spec fn commit_block(
    cs: Seq<CommitInfo>,
    c: usize,
    label: Option<Seq<char>>,
    indent: usize,
) -> Seq<EntryView> {
    seq![EntryView::Commit { commit: c, label, indent }] + Seq::new(
        file_count(cs, c as int),
        |f: int| EntryView::Path { commit: c, file: f as usize, indent },
    )
}

/// The blocks of the commits `ms` of one group; only the first carries the label.
pub open spec fn group_blocks(
    cs: Seq<CommitInfo>,
    ms: Seq<usize>,
    label: Seq<char>,
    indent: usize,
) -> Seq<EntryView>
    decreases ms.len(),
{
    if ms.len() == 0 {
        seq![]
    } else {
        group_blocks(cs, ms.drop_last(), label, indent) + commit_block(
            cs,
            ms.last(),
            if ms.len() == 1 { Some(label) } else { None },
            indent,
        )
    }
}

/// The groups of labels `ls`, one after the other.
pub open spec fn layout(cs: Seq<CommitInfo>, ls: Seq<Seq<char>>, indent: usize) -> Seq<EntryView>
    decreases ls.len(),
{
    if ls.len() == 0 {
        seq![]
    } else {
        layout(cs, ls.drop_last(), indent) + group_blocks(
            cs,
            members(cs, ls.last(), cs.len()),
            ls.last(),
            indent,
        )
    }
}

/// The largest `label length + 1` over `ls`, or 0.
pub open spec fn widest(ls: Seq<Seq<char>>) -> nat
    decreases ls.len(),
{
    if ls.len() == 0 {
        0
    } else {
        let w = widest(ls.drop_last());
        let x = ls.last().len() + 1;
        if w >= x {
            w
        } else {
            x
        }
    }
}

/// The distinct labels of all commits, in order of first appearance.
pub open spec fn all_labels(cs: Seq<CommitInfo>) -> Seq<Seq<char>> {
    labels_upto(cs, cs.len())
}

/// The indent shared by every entry.
pub open spec fn indent_of(cs: Seq<CommitInfo>) -> nat {
    widest(all_labels(cs))
}

/// The entry list of `cs`.
pub open spec fn entries_of(cs: Seq<CommitInfo>) -> Seq<EntryView> {
    layout(cs, all_labels(cs), indent_of(cs) as usize)
}

proof fn lemma_label_len(c: CommitInfo)
    ensures
        2 <= pr_label(c).len() <= 21,
{
    if let Some(n) = c.pr {
        lemma_decimal_len(n as nat);
    }
}

/// The labels seen so far are distinct, each of two to twenty-one characters.
pub proof fn lemma_labels_distinct(cs: Seq<CommitInfo>, k: nat)
    requires
        k <= cs.len(),
    ensures
        labels_upto(cs, k).no_duplicates(),
        forall|g: int| 0 <= g < labels_upto(cs, k).len() ==> 2 <= #[trigger] labels_upto(cs, k)[g].len() <= 21,
    decreases k,
{
    if k > 0 {
        lemma_labels_distinct(cs, (k - 1) as nat);
        lemma_label_len(cs[k - 1]);
    }
}

/// Members come from the first `k` commits, and a label with members has been seen.
pub proof fn lemma_members_bounded(cs: Seq<CommitInfo>, l: Seq<char>, k: nat)
    requires
        k <= cs.len() <= usize::MAX,
    ensures
        forall|j: int| 0 <= j < members(cs, l, k).len() ==> #[trigger] members(cs, l, k)[j] < k,
        members(cs, l, k).len() > 0 ==> labels_upto(cs, k).contains(l),
    decreases k,
{
    if k > 0 {
        lemma_members_bounded(cs, l, (k - 1) as nat);
        let ls = labels_upto(cs, (k - 1) as nat);
        let x = pr_label(cs[k - 1]);
        let m = members(cs, l, (k - 1) as nat);
        assert forall|j: int| 0 <= j < members(cs, l, k).len() implies #[trigger] members(cs, l, k)[j] < k by {
            if j < m.len() {
                assert(members(cs, l, k)[j] == m[j]);
            }
        }
        if ls.contains(l) {
            let i = choose|i: int| 0 <= i < ls.len() && ls[i] == l;
            assert(labels_upto(cs, k)[i] == l);
        }
        if x == l && !ls.contains(l) {
            assert(labels_upto(cs, k)[ls.len() as int] == l);
        }
    }
}

/// The group label of `commit`.
fn label_of(commit: &CommitInfo) -> (r: String)
    ensures
        r@ == pr_label(*commit),
{
    let mut s = String::new();
    match commit.pr {
        Some(n) => {
            push_char(&mut s, '#');
            push_decimal(&mut s, n);
        },
        None => {
            push_char(&mut s, '?');
            push_char(&mut s, '?');
        },
    }
    assert(s@ =~= pr_label(*commit));
    s
}

proof fn lemma_view_push(es: Seq<ListEntry>, e: ListEntry)
    ensures
        entries_view(es.push(e)) == entries_view(es).push(e@),
{
    assert(entries_view(es.push(e)) =~= entries_view(es).push(e@));
}

/// Builds the entry list: commits grouped by label in order of first
/// appearance, each group in input order, the label on its first commit
/// only, each commit followed by its files, all with one shared indent.
#[verifier::loop_isolation(false)]
pub fn entries_from_commits(commits: &[CommitInfo]) -> (r: Vec<ListEntry>)
    ensures
        entries_view(r@) == entries_of(commits@),
{
    let ghost cs = commits@;
    let n = commits.len();
    let mut group_labels: Vec<String> = Vec::new();
    let mut group_members: Vec<Vec<usize>> = Vec::new();
    let mut k: usize = 0;
    while k < n
        invariant
            k <= n,
            n == cs.len(),
            group_labels@.len() == labels_upto(cs, k as nat).len(),
            group_members@.len() == group_labels@.len(),
            forall|g: int|
                0 <= g < group_labels@.len() ==> #[trigger] group_labels@[g]@ == labels_upto(
                    cs,
                    k as nat,
                )[g],
            forall|g: int|
                0 <= g < group_labels@.len() ==> #[trigger] group_members@[g]@ == members(
                    cs,
                    labels_upto(cs, k as nat)[g],
                    k as nat,
                ),
        decreases n - k,
    {
        let label = label_of(&commits[k]);
        let ghost ls = labels_upto(cs, k as nat);
        let ghost l = label@;
        proof {
            lemma_labels_distinct(cs, k as nat);
        }
        let mut pos: Option<usize> = None;
        let mut g: usize = 0;
        while g < group_labels.len()
            invariant
                g <= group_labels@.len(),
                match pos {
                    Some(p) => p < g && group_labels@[p as int]@ == l,
                    None => forall|h: int| 0 <= h < g ==> #[trigger] group_labels@[h]@ != l,
                },
            decreases group_labels@.len() - g,
        {
            if pos.is_none() && group_labels[g] == label {
                pos = Some(g);
            }
            g += 1;
        }
        match pos {
            Some(p) => {
                let mut ms = group_members.remove(p);
                ms.push(k);
                group_members.insert(p, ms);
                proof {
                    assert(ls.contains(l));
                    assert(labels_upto(cs, (k + 1) as nat) == ls);
                    assert forall|h: int| 0 <= h < group_labels@.len() implies #[trigger] group_members@[h]@
                        == members(cs, labels_upto(cs, (k + 1) as nat)[h], (k + 1) as nat) by {
                        if h != p {
                            assert(ls[h] != ls[p as int]);
                        }
                    }
                }
            },
            None => {
                proof {
                    assert forall|h: int| 0 <= h < ls.len() implies ls[h] != l by {
                        assert(group_labels@[h]@ == ls[h]);
                    }
                    assert(!ls.contains(l));
                    lemma_members_bounded(cs, l, k as nat);
                    assert(labels_upto(cs, (k + 1) as nat) == ls.push(l));
                }
                group_labels.push(label);
                group_members.push(vec![k]);
                proof {
                    assert forall|h: int| 0 <= h < group_labels@.len() implies #[trigger] group_members@[h]@
                        == members(cs, labels_upto(cs, (k + 1) as nat)[h], (k + 1) as nat) by {
                        if h < ls.len() {
                            assert(ls[h] != l);
                        } else {
                            assert(members(cs, l, k as nat).len() == 0);
                            assert(group_members@[h]@ =~= members(cs, l, (k + 1) as nat));
                        }
                    }
                }
            },
        }
        k += 1;
    }
    let ghost ls = labels_upto(cs, n as nat);
    proof {
        lemma_labels_distinct(cs, n as nat);
    }

    // +1 for the space after the label.
    let mut indent: usize = 0;
    let mut g: usize = 0;
    while g < group_labels.len()
        invariant
            g <= group_labels@.len(),
            indent == widest(ls.take(g as int)),
            indent <= 22,
        decreases group_labels@.len() - g,
    {
        let w = group_labels[g].as_str().unicode_len() + 1;
        assert(ls.take(g + 1).drop_last() =~= ls.take(g as int));
        if w > indent {
            indent = w;
        }
        g += 1;
    }
    assert(ls.take(ls.len() as int) =~= ls);

    let mut entries: Vec<ListEntry> = Vec::new();
    let mut g: usize = 0;
    while g < group_labels.len()
        invariant
            g <= group_labels@.len(),
            entries_view(entries@) == layout(cs, ls.take(g as int), indent),
        decreases group_labels@.len() - g,
    {
        let ms = &group_members[g];
        let label = &group_labels[g];
        let ghost before = entries_view(entries@);
        proof {
            lemma_members_bounded(cs, ls[g as int], n as nat);
        }
        let mut i: usize = 0;
        while i < ms.len()
            invariant
                i <= ms@.len(),
                entries_view(entries@) == before + group_blocks(cs, ms@.take(i as int), ls[g as int], indent),
            decreases ms@.len() - i,
        {
            let c = ms[i];
            let pr_label = if i == 0 {
                Some(label.clone())
            } else {
                None
            };
            let ghost mid = entries_view(entries@);
            let ghost label = if i == 0 {
                Some(ls[g as int])
            } else {
                None
            };
            let ghost head = EntryView::Commit { commit: c, label, indent };
            proof {
                lemma_view_push(entries@, ListEntry::Commit { commit_idx: c, pr_label, indent });
            }
            entries.push(ListEntry::Commit { commit_idx: c, pr_label, indent });
            let nf = commits[c].file_diffs.len();
            let mut f: usize = 0;
            while f < nf
                invariant
                    f <= nf,
                    nf == file_count(cs, c as int),
                    entries_view(entries@) == mid + seq![head] + Seq::new(
                        f as nat,
                        |j: int| EntryView::Path { commit: c, file: j as usize, indent },
                    ),
                decreases nf - f,
            {
                proof {
                    lemma_view_push(entries@, ListEntry::Path { commit_idx: c, file_idx: f, indent });
                }
                entries.push(ListEntry::Path { commit_idx: c, file_idx: f, indent });
                assert(Seq::new(
                    (f + 1) as nat,
                    |j: int| EntryView::Path { commit: c, file: j as usize, indent },
                ) =~= Seq::new(
                    f as nat,
                    |j: int| EntryView::Path { commit: c, file: j as usize, indent },
                ).push(EntryView::Path { commit: c, file: f, indent }));
                f += 1;
            }
            assert(ms@.take(i + 1).drop_last() =~= ms@.take(i as int));
            assert(entries_view(entries@) =~= before + group_blocks(cs, ms@.take(i + 1), ls[g as int], indent));
            i += 1;
        }
        assert(ms@.take(ms@.len() as int) =~= ms@);
        assert(ls.take(g + 1).drop_last() =~= ls.take(g as int));
        g += 1;
    }
    entries
}

/// Whether every row of `es` refers to a commit of `cs` and, for a file
/// row, to one of that commit's files.
pub open spec fn entries_in_range(es: Seq<EntryView>, cs: Seq<CommitInfo>) -> bool {
    forall|p: int|
        0 <= p < es.len() ==> match #[trigger] es[p] {
            EntryView::Commit { commit, .. } => commit < cs.len(),
            EntryView::Path { commit, file, .. } => commit < cs.len() && file < file_count(
                cs,
                commit as int,
            ),
        }
}

/// Whether every commit row of `es` refers to a commit of `cs`.
pub open spec fn commit_rows_in_range(es: Seq<EntryView>, cs: Seq<CommitInfo>) -> bool {
    forall|p: int|
        0 <= p < es.len() ==> match #[trigger] es[p] {
            EntryView::Commit { commit, .. } => commit < cs.len(),
            EntryView::Path { .. } => true,
        }
}

/// The position of the first file row, if there is one.
pub fn first_entry(entries: &[ListEntry]) -> (r: Option<usize>)
    ensures
        match r {
            Some(i) => i < entries@.len() && entries@[i as int] is Path && forall|j: int|
                0 <= j < i ==> #[trigger] entries@[j] is Commit,
            None => forall|j: int| 0 <= j < entries@.len() ==> #[trigger] entries@[j] is Commit,
        },
{
    let mut i: usize = 0;
    while i < entries.len()
        invariant
            i <= entries@.len(),
            forall|j: int| 0 <= j < i ==> #[trigger] entries@[j] is Commit,
        decreases entries@.len() - i,
    {
        if let ListEntry::Path { .. } = &entries[i] {
            return Some(i);
        }
        i += 1;
    }
    None
}

/// The changelog line of one commit.
pub open spec fn changelog_line(c: CommitInfo, owner: Seq<char>, name: Seq<char>) -> Seq<char> {
    "- "@ + c.message@ + " ["@ + c.short_id@ + "](https://github.com/"@ + owner + "/"@ + name
        + "/commit/"@ + c.oid@ + ")\n"@
}

/// The changelog: one line per commit row of `es`, in the order of `es`.
pub open spec fn changelog_text(
    es: Seq<EntryView>,
    cs: Seq<CommitInfo>,
    owner: Seq<char>,
    name: Seq<char>,
) -> Seq<char>
    decreases es.len(),
{
    if es.len() == 0 {
        seq![]
    } else {
        let rest = changelog_text(es.drop_last(), cs, owner, name);
        match es.last() {
            EntryView::Commit { commit, .. } => rest + changelog_line(cs[commit as int], owner, name),
            EntryView::Path { .. } => rest,
        }
    }
}

/// The Markdown changelog draft: one bullet per commit row, linking the
/// commit on the hosting service, in list order.
pub fn format_proposed_changelog(
    entries: &[ListEntry],
    commits: &[CommitInfo],
    owner: &str,
    name: &str,
) -> (r: String)
    requires
        commit_rows_in_range(entries_view(entries@), commits@),
    ensures
        r@ == changelog_text(entries_view(entries@), commits@, owner@, name@),
{
    let ghost es = entries_view(entries@);
    let mut content = String::new();
    let mut i: usize = 0;
    while i < entries.len()
        invariant
            i <= entries@.len(),
            es == entries_view(entries@),
            commit_rows_in_range(es, commits@),
            content@ == changelog_text(es.take(i as int), commits@, owner@, name@),
        decreases entries@.len() - i,
    {
        assert(es.take(i + 1).drop_last() =~= es.take(i as int));
        assert(es[i as int] == entries@[i as int]@);
        if let ListEntry::Commit { commit_idx, .. } = &entries[i] {
            let commit = &commits[*commit_idx];
            content.append("- ");
            content.append(commit.message.as_str());
            content.append(" [");
            content.append(commit.short_id.as_str());
            content.append("](https://github.com/");
            content.append(owner);
            content.append("/");
            content.append(name);
            content.append("/commit/");
            content.append(commit.oid.as_str());
            content.append(")\n");
            assert(content@ =~= changelog_text(es.take(i + 1), commits@, owner@, name@));
        }
        i += 1;
    }
    assert(es.take(entries@.len() as int) =~= es);
    content
}

} // verus!
