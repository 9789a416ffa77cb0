//! What holds of every entry list that `entries_from_commits` builds.

use vstd::prelude::*;
use crate::git::{CommitInfo, file_count};
use crate::entries::{
    EntryView, all_labels, commit_block, entries_in_range, entries_of,
    group_blocks, indent_of, labels_upto, layout, lemma_labels_distinct, lemma_members_bounded,
    members, pr_label, widest,
};

verus! {

/// The number of commit rows in `es`.
pub open spec fn commit_rows(es: Seq<EntryView>) -> nat
    decreases es.len(),
{
    if es.len() == 0 {
        0
    } else {
        commit_rows(es.drop_last()) + if es.last() is Commit {
            1nat
        } else {
            0nat
        }
    }
}

/// The number of retained files over the first `k` commits.
pub open spec fn total_files(cs: Seq<CommitInfo>, k: nat) -> nat
    decreases k,
{
    if k == 0 {
        0
    } else {
        total_files(cs, (k - 1) as nat) + file_count(cs, k - 1)
    }
}

/// The indent that a row carries.
pub open spec fn entry_indent(e: EntryView) -> usize {
    match e {
        EntryView::Commit { indent, .. } => indent,
        EntryView::Path { indent, .. } => indent,
    }
}

spec fn files_of(cs: Seq<CommitInfo>, ms: Seq<usize>) -> nat
    decreases ms.len(),
{
    if ms.len() == 0 {
        0
    } else {
        files_of(cs, ms.drop_last()) + file_count(cs, ms.last() as int)
    }
}

spec fn group_sizes(cs: Seq<CommitInfo>, ls: Seq<Seq<char>>, k: nat) -> nat
    decreases ls.len(),
{
    if ls.len() == 0 {
        0
    } else {
        group_sizes(cs, ls.drop_last(), k) + members(cs, ls.last(), k).len()
    }
}

spec fn group_files(cs: Seq<CommitInfo>, ls: Seq<Seq<char>>, k: nat) -> nat
    decreases ls.len(),
{
    if ls.len() == 0 {
        0
    } else {
        group_files(cs, ls.drop_last(), k) + files_of(cs, members(cs, ls.last(), k))
    }
}

proof fn lemma_rows_concat(a: Seq<EntryView>, b: Seq<EntryView>)
    ensures
        commit_rows(a + b) == commit_rows(a) + commit_rows(b),
    decreases b.len(),
{
    if b.len() > 0 {
        assert((a + b).drop_last() =~= a + b.drop_last());
        lemma_rows_concat(a, b.drop_last());
    } else {
        assert(a + b =~= a);
    }
}

proof fn lemma_path_rows(c: usize, n: nat, indent: usize)
    ensures
        commit_rows(Seq::new(n, |f: int| EntryView::Path { commit: c, file: f as usize, indent }))
            == 0,
    decreases n,
{
    if n > 0 {
        let s = Seq::new(n, |f: int| EntryView::Path { commit: c, file: f as usize, indent });
        assert(s.drop_last() =~= Seq::new(
            (n - 1) as nat,
            |f: int| EntryView::Path { commit: c, file: f as usize, indent },
        ));
        lemma_path_rows(c, (n - 1) as nat, indent);
    }
}

proof fn lemma_block_rows(cs: Seq<CommitInfo>, c: usize, label: Option<Seq<char>>, indent: usize)
    ensures
        commit_block(cs, c, label, indent).len() == 1 + file_count(cs, c as int),
        commit_rows(commit_block(cs, c, label, indent)) == 1,
{
    let h = seq![EntryView::Commit { commit: c, label, indent }];
    let ps = Seq::new(
        file_count(cs, c as int),
        |f: int| EntryView::Path { commit: c, file: f as usize, indent },
    );
    lemma_rows_concat(h, ps);
    lemma_path_rows(c, file_count(cs, c as int), indent);
    assert(h.drop_last() =~= Seq::<EntryView>::empty());
    assert(h.last() is Commit);
    assert(commit_rows(h.drop_last()) == 0);
    assert(commit_rows(h) == 1);
}

proof fn lemma_group_rows(cs: Seq<CommitInfo>, ms: Seq<usize>, label: Seq<char>, indent: usize)
    ensures
        group_blocks(cs, ms, label, indent).len() == ms.len() + files_of(cs, ms),
        commit_rows(group_blocks(cs, ms, label, indent)) == ms.len(),
    decreases ms.len(),
{
    if ms.len() > 0 {
        lemma_group_rows(cs, ms.drop_last(), label, indent);
        let lab = if ms.len() == 1 { Some(label) } else { None };
        lemma_block_rows(cs, ms.last(), lab, indent);
        lemma_rows_concat(
            group_blocks(cs, ms.drop_last(), label, indent),
            commit_block(cs, ms.last(), lab, indent),
        );
    }
}

proof fn lemma_layout_rows(cs: Seq<CommitInfo>, ls: Seq<Seq<char>>, indent: usize)
    ensures
        layout(cs, ls, indent).len() == group_sizes(cs, ls, cs.len()) + group_files(
            cs,
            ls,
            cs.len(),
        ),
        commit_rows(layout(cs, ls, indent)) == group_sizes(cs, ls, cs.len()),
    decreases ls.len(),
{
    if ls.len() > 0 {
        lemma_layout_rows(cs, ls.drop_last(), indent);
        let ms = members(cs, ls.last(), cs.len());
        lemma_group_rows(cs, ms, ls.last(), indent);
        lemma_rows_concat(layout(cs, ls.drop_last(), indent), group_blocks(cs, ms, ls.last(), indent));
    }
}

/// Adding commit `k - 1` to the groups of labels `ls` adds one member and its
/// files to the group of its label, if `ls` holds that label.
proof fn lemma_sizes_step(cs: Seq<CommitInfo>, ls: Seq<Seq<char>>, k: nat)
    requires
        1 <= k <= cs.len() <= usize::MAX,
        ls.no_duplicates(),
    ensures
        group_sizes(cs, ls, k) == group_sizes(cs, ls, (k - 1) as nat) + if ls.contains(
            pr_label(cs[k - 1]),
        ) {
            1nat
        } else {
            0nat
        },
        group_files(cs, ls, k) == group_files(cs, ls, (k - 1) as nat) + if ls.contains(
            pr_label(cs[k - 1]),
        ) {
            file_count(cs, k - 1)
        } else {
            0nat
        },
    decreases ls.len(),
{
    if ls.len() > 0 {
        let l = pr_label(cs[k - 1]);
        let init = ls.drop_last();
        assert(init.no_duplicates());
        lemma_sizes_step(cs, init, k);
        let x = ls.last();
        let m = members(cs, x, (k - 1) as nat);
        if x == l {
            assert(members(cs, x, k) == m.push((k - 1) as usize));
            assert(m.push((k - 1) as usize).drop_last() =~= m);
            assert(!init.contains(l)) by {
                if init.contains(l) {
                    let i = choose|i: int| 0 <= i < init.len() && init[i] == l;
                    assert(ls[i] == ls[ls.len() - 1]);
                }
            }
            assert(ls.contains(l)) by {
                assert(ls[ls.len() - 1] == l);
            }
        } else {
            assert(ls.contains(l) == init.contains(l)) by {
                if ls.contains(l) {
                    let i = choose|i: int| 0 <= i < ls.len() && ls[i] == l;
                    assert(init[i] == l);
                }
                if init.contains(l) {
                    let i = choose|i: int| 0 <= i < init.len() && init[i] == l;
                    assert(ls[i] == l);
                }
            }
        }
    }
}

proof fn lemma_members_empty(cs: Seq<CommitInfo>, l: Seq<char>, k: nat)
    requires
        k <= cs.len(),
        !labels_upto(cs, k).contains(l),
    ensures
        members(cs, l, k).len() == 0,
    decreases k,
{
    if k > 0 {
        let ls = labels_upto(cs, (k - 1) as nat);
        assert(!ls.contains(l)) by {
            if ls.contains(l) {
                let i = choose|i: int| 0 <= i < ls.len() && ls[i] == l;
                assert(labels_upto(cs, k)[i] == l);
            }
        }
        if pr_label(cs[k - 1]) == l {
            assert(labels_upto(cs, k)[ls.len() as int] == l);
        }
        lemma_members_empty(cs, l, (k - 1) as nat);
    }
}

proof fn lemma_group_totals(cs: Seq<CommitInfo>, k: nat)
    requires
        k <= cs.len() <= usize::MAX,
    ensures
        group_sizes(cs, labels_upto(cs, k), k) == k,
        group_files(cs, labels_upto(cs, k), k) == total_files(cs, k),
    decreases k,
{
    if k > 0 {
        lemma_group_totals(cs, (k - 1) as nat);
        let ls = labels_upto(cs, (k - 1) as nat);
        let l = pr_label(cs[k - 1]);
        lemma_labels_distinct(cs, (k - 1) as nat);
        lemma_sizes_step(cs, ls, k);
        if !ls.contains(l) {
            let ls2 = ls.push(l);
            assert(ls2.drop_last() =~= ls);
            lemma_members_empty(cs, l, (k - 1) as nat);
            let m = members(cs, l, (k - 1) as nat);
            assert(members(cs, l, k) == m.push((k - 1) as usize));
            assert(m.push((k - 1) as usize).drop_last() =~= m);
            assert(files_of(cs, m) == 0);
            assert(files_of(cs, members(cs, l, k)) == file_count(cs, k - 1));
            assert(group_files(cs, ls2, k) == group_files(cs, ls, k) + files_of(cs, members(cs, l, k)));
        }
    }
}

proof fn lemma_layout_in_range(cs: Seq<CommitInfo>, ls: Seq<Seq<char>>, indent: usize)
    requires
        cs.len() <= usize::MAX,
    ensures
        entries_in_range(layout(cs, ls, indent), cs),
        forall|p: int|
            0 <= p < layout(cs, ls, indent).len() ==> entry_indent(
                #[trigger] layout(cs, ls, indent)[p],
            ) == indent,
    decreases ls.len(),
{
    if ls.len() > 0 {
        lemma_layout_in_range(cs, ls.drop_last(), indent);
        let ms = members(cs, ls.last(), cs.len());
        lemma_members_bounded(cs, ls.last(), cs.len());
        lemma_group_in_range(cs, ms, ls.last(), indent);
    }
}

proof fn lemma_group_in_range(cs: Seq<CommitInfo>, ms: Seq<usize>, label: Seq<char>, indent: usize)
    requires
        forall|j: int| 0 <= j < ms.len() ==> #[trigger] ms[j] < cs.len(),
    ensures
        entries_in_range(group_blocks(cs, ms, label, indent), cs),
        forall|p: int|
            0 <= p < group_blocks(cs, ms, label, indent).len() ==> entry_indent(
                #[trigger] group_blocks(cs, ms, label, indent)[p],
            ) == indent,
    decreases ms.len(),
{
    if ms.len() > 0 {
        lemma_group_in_range(cs, ms.drop_last(), label, indent);
        assert(ms.last() < cs.len());
    }
}

/// Every commit contributes one commit row and one row per retained file;
/// every row points at an existing commit and, for a file row, at an
/// existing file of it.
pub proof fn lemma_entry_count(cs: Seq<CommitInfo>)
    requires
        cs.len() <= usize::MAX,
    ensures
        entries_of(cs).len() == commit_rows(entries_of(cs)) + total_files(cs, cs.len()),
        commit_rows(entries_of(cs)) == cs.len(),
        entries_in_range(entries_of(cs), cs),
{
    lemma_layout_rows(cs, all_labels(cs), indent_of(cs) as usize);
    lemma_group_totals(cs, cs.len());
    lemma_layout_in_range(cs, all_labels(cs), indent_of(cs) as usize);
}

proof fn lemma_widest(ls: Seq<Seq<char>>)
    ensures
        forall|g: int| 0 <= g < ls.len() ==> #[trigger] ls[g].len() + 1 <= widest(ls),
        ls.len() > 0 ==> exists|g: int| 0 <= g < ls.len() && #[trigger] ls[g].len() + 1 == widest(ls),
        ls.len() == 0 ==> widest(ls) == 0,
    decreases ls.len(),
{
    if ls.len() > 0 {
        let init = ls.drop_last();
        lemma_widest(init);
        assert forall|g: int| 0 <= g < ls.len() implies #[trigger] ls[g].len() + 1 <= widest(ls) by {
            if g < init.len() {
                assert(init[g] == ls[g]);
            }
        }
        if widest(init) >= ls.last().len() + 1 && init.len() > 0 {
            let g = choose|g: int| 0 <= g < init.len() && #[trigger] init[g].len() + 1 == widest(init);
            assert(ls[g] == init[g]);
        } else {
            assert(ls[ls.len() - 1].len() + 1 == widest(ls));
        }
    }
}

/// Facts about the members of one label among the first `k` commits.
proof fn lemma_members_facts(cs: Seq<CommitInfo>, l: Seq<char>, k: nat)
    requires
        k <= cs.len() <= usize::MAX,
    ensures
        forall|j: int|
            0 <= j < members(cs, l, k).len() ==> pr_label(cs[#[trigger] members(cs, l, k)[j] as int])
                == l,
        forall|j1: int, j2: int|
            0 <= j1 < j2 < members(cs, l, k).len() ==> #[trigger] members(cs, l, k)[j1]
                < #[trigger] members(cs, l, k)[j2],
        forall|i: int|
            0 <= i < k && pr_label(#[trigger] cs[i]) == l ==> members(cs, l, k).contains(i as usize),
        forall|j: int| 0 <= j < members(cs, l, k).len() ==> #[trigger] members(cs, l, k)[j] < k,
    decreases k,
{
    if k > 0 {
        let m = members(cs, l, (k - 1) as nat);
        lemma_members_facts(cs, l, (k - 1) as nat);
        let mk = members(cs, l, k);
        assert forall|j: int| 0 <= j < m.len() implies #[trigger] mk[j] == m[j] by {}
        assert forall|i: int| 0 <= i < k && pr_label(#[trigger] cs[i]) == l implies mk.contains(i as usize) by {
            if i < k - 1 {
                let j = choose|j: int| 0 <= j < m.len() && m[j] == i as usize;
                assert(mk[j] == i as usize);
            } else {
                assert(mk[m.len() as int] == i as usize);
            }
        }
    }
}

/// Every label in `labels_upto(cs, k)` is that of some earlier commit, and
/// every earlier commit's label is there.
proof fn lemma_labels_cover(cs: Seq<CommitInfo>, k: nat)
    requires
        k <= cs.len(),
    ensures
        forall|i: int| 0 <= i < k ==> labels_upto(cs, k).contains(pr_label(#[trigger] cs[i])),
        forall|g: int|
            0 <= g < labels_upto(cs, k).len() ==> exists|i: int|
                0 <= i < k && pr_label(#[trigger] cs[i]) == #[trigger] labels_upto(cs, k)[g],
    decreases k,
{
    if k > 0 {
        lemma_labels_cover(cs, (k - 1) as nat);
        let ls = labels_upto(cs, (k - 1) as nat);
        let lk = labels_upto(cs, k);
        let l = pr_label(cs[k - 1]);
        assert forall|g: int| 0 <= g < ls.len() implies #[trigger] lk[g] == ls[g] by {}
        assert forall|i: int| 0 <= i < k implies lk.contains(pr_label(#[trigger] cs[i])) by {
            if i < k - 1 {
                let g = choose|g: int| 0 <= g < ls.len() && ls[g] == pr_label(cs[i]);
                assert(lk[g] == pr_label(cs[i]));
            } else if !ls.contains(l) {
                assert(lk[ls.len() as int] == l);
            }
        }
        assert forall|g: int| 0 <= g < lk.len() implies exists|i: int|
            0 <= i < k && pr_label(#[trigger] cs[i]) == #[trigger] lk[g] by {
            if g < ls.len() {
                let i = choose|i: int| 0 <= i < k - 1 && pr_label(#[trigger] cs[i]) == ls[g];
                assert(pr_label(cs[i]) == lk[g]);
            } else {
                assert(pr_label(cs[k - 1]) == lk[g]);
            }
        }
    }
}

/// The shared indent is the largest `label length + 1` over the labels of
/// all commits, or 0 when there are none, and every row carries it.
pub proof fn lemma_indent(cs: Seq<CommitInfo>)
    requires
        cs.len() <= usize::MAX,
    ensures
        cs.len() == 0 ==> indent_of(cs) == 0,
        forall|i: int| 0 <= i < cs.len() ==> pr_label(#[trigger] cs[i]).len() + 1 <= indent_of(cs),
        cs.len() > 0 ==> exists|i: int|
            0 <= i < cs.len() && pr_label(#[trigger] cs[i]).len() + 1 == indent_of(cs),
        forall|p: int|
            0 <= p < entries_of(cs).len() ==> entry_indent(#[trigger] entries_of(cs)[p])
                == indent_of(cs),
{
    let ls = all_labels(cs);
    lemma_widest(ls);
    lemma_labels_cover(cs, cs.len());
    lemma_labels_distinct(cs, cs.len());
    lemma_layout_in_range(cs, ls, indent_of(cs) as usize);
    assert forall|i: int| 0 <= i < cs.len() implies pr_label(#[trigger] cs[i]).len() + 1 <= indent_of(cs) by {
        assert(ls.contains(pr_label(cs[i])));
        let g = choose|g: int| 0 <= g < ls.len() && ls[g] == pr_label(cs[i]);
        assert(ls[g].len() + 1 <= widest(ls));
    }
    if cs.len() > 0 {
        assert(ls.contains(pr_label(cs[0])));
        let g = choose|g: int| 0 <= g < ls.len() && #[trigger] ls[g].len() + 1 == widest(ls);
        let i = choose|i: int| 0 <= i < cs.len() && pr_label(#[trigger] cs[i]) == ls[g];
        assert(pr_label(cs[i]).len() + 1 == indent_of(cs));
    }
    assert(indent_of(cs) <= 22);
}

/// The commits of the commit rows of `es`, in row order.
pub open spec fn commit_order(es: Seq<EntryView>) -> Seq<usize>
    decreases es.len(),
{
    if es.len() == 0 {
        seq![]
    } else {
        let r = commit_order(es.drop_last());
        match es.last() {
            EntryView::Commit { commit, .. } => r.push(commit),
            EntryView::Path { .. } => r,
        }
    }
}

/// The position of the first commit whose label is `l`.
pub open spec fn first_with_label(cs: Seq<CommitInfo>, l: Seq<char>) -> usize {
    members(cs, l, cs.len())[0]
}

spec fn flat(cs: Seq<CommitInfo>, ls: Seq<Seq<char>>) -> Seq<usize>
    decreases ls.len(),
{
    if ls.len() == 0 {
        seq![]
    } else {
        flat(cs, ls.drop_last()) + members(cs, ls.last(), cs.len())
    }
}

proof fn lemma_order_concat(a: Seq<EntryView>, b: Seq<EntryView>)
    ensures
        commit_order(a + b) == commit_order(a) + commit_order(b),
    decreases b.len(),
{
    if b.len() > 0 {
        assert((a + b).drop_last() =~= a + b.drop_last());
        lemma_order_concat(a, b.drop_last());
        assert(commit_order(a + b) =~= commit_order(a) + commit_order(b));
    } else {
        assert(a + b =~= a);
        assert(commit_order(a) + commit_order(b) =~= commit_order(a));
    }
}

proof fn lemma_order_paths(c: usize, n: nat, indent: usize)
    ensures
        commit_order(Seq::new(n, |f: int| EntryView::Path { commit: c, file: f as usize, indent }))
            == Seq::<usize>::empty(),
    decreases n,
{
    if n > 0 {
        let s = Seq::new(n, |f: int| EntryView::Path { commit: c, file: f as usize, indent });
        assert(s.drop_last() =~= Seq::new(
            (n - 1) as nat,
            |f: int| EntryView::Path { commit: c, file: f as usize, indent },
        ));
        lemma_order_paths(c, (n - 1) as nat, indent);
    }
}

proof fn lemma_order_group(cs: Seq<CommitInfo>, ms: Seq<usize>, label: Seq<char>, indent: usize)
    ensures
        commit_order(group_blocks(cs, ms, label, indent)) == ms,
    decreases ms.len(),
{
    if ms.len() > 0 {
        lemma_order_group(cs, ms.drop_last(), label, indent);
        let lab = if ms.len() == 1 { Some(label) } else { None };
        let c = ms.last();
        let h = seq![EntryView::Commit { commit: c, label: lab, indent }];
        let ps = Seq::new(
            file_count(cs, c as int),
            |f: int| EntryView::Path { commit: c, file: f as usize, indent },
        );
        lemma_order_concat(h, ps);
        lemma_order_paths(c, file_count(cs, c as int), indent);
        assert(h.drop_last() =~= Seq::<EntryView>::empty());
        assert(h.last() == EntryView::Commit { commit: c, label: lab, indent });
        assert(commit_order(h.drop_last()) == Seq::<usize>::empty());
        assert(commit_order(h) =~= seq![c]);
        lemma_order_concat(group_blocks(cs, ms.drop_last(), label, indent), commit_block(cs, c, lab, indent));
        assert(ms.drop_last() + seq![c] + Seq::<usize>::empty() =~= ms);
    }
}

proof fn lemma_order_layout(cs: Seq<CommitInfo>, ls: Seq<Seq<char>>, indent: usize)
    ensures
        commit_order(layout(cs, ls, indent)) == flat(cs, ls),
    decreases ls.len(),
{
    if ls.len() > 0 {
        lemma_order_layout(cs, ls.drop_last(), indent);
        let ms = members(cs, ls.last(), cs.len());
        lemma_order_group(cs, ms, ls.last(), indent);
        lemma_order_concat(layout(cs, ls.drop_last(), indent), group_blocks(cs, ms, ls.last(), indent));
    }
}

proof fn lemma_order_len(es: Seq<EntryView>)
    ensures
        commit_order(es).len() == commit_rows(es),
    decreases es.len(),
{
    if es.len() > 0 {
        lemma_order_len(es.drop_last());
    }
}

/// Groups come in order of first appearance.
proof fn lemma_first_order(cs: Seq<CommitInfo>, k: nat)
    requires
        k <= cs.len() <= usize::MAX,
    ensures
        forall|g: int|
            0 <= g < labels_upto(cs, k).len() ==> members(cs, #[trigger] labels_upto(cs, k)[g], k).len()
                > 0,
        forall|g1: int, g2: int|
            0 <= g1 < g2 < labels_upto(cs, k).len() ==> members(
                cs,
                #[trigger] labels_upto(cs, k)[g1],
                k,
            )[0] < members(cs, #[trigger] labels_upto(cs, k)[g2], k)[0],
    decreases k,
{
    if k > 0 {
        lemma_first_order(cs, (k - 1) as nat);
        let ls = labels_upto(cs, (k - 1) as nat);
        let lk = labels_upto(cs, k);
        let l = pr_label(cs[k - 1]);
        assert forall|g: int| 0 <= g < ls.len() implies #[trigger] lk[g] == ls[g] by {}
        assert forall|g: int| 0 <= g < ls.len() implies members(cs, #[trigger] lk[g], k).len() > 0
            && members(cs, lk[g], k)[0] == members(cs, ls[g], (k - 1) as nat)[0]
            && members(cs, lk[g], k)[0] < k - 1 by {
            lemma_members_bounded(cs, ls[g], (k - 1) as nat);
            assert(members(cs, ls[g], (k - 1) as nat).len() > 0);
        }
        if !ls.contains(l) {
            lemma_members_empty(cs, l, (k - 1) as nat);
            assert(lk[ls.len() as int] == l);
            assert(members(cs, l, k)[0] == k - 1);
        }
    }
}

proof fn lemma_flat_sorted(cs: Seq<CommitInfo>, t: nat)
    requires
        cs.len() <= usize::MAX,
        t <= all_labels(cs).len(),
    ensures
        forall|p: int|
            0 <= p < flat(cs, all_labels(cs).take(t as int)).len() ==> {
                let x = #[trigger] flat(cs, all_labels(cs).take(t as int))[p];
                &&& x < cs.len()
                &&& all_labels(cs).index_of(pr_label(cs[x as int])) < t
                &&& all_labels(cs)[all_labels(cs).index_of(pr_label(cs[x as int]))] == pr_label(
                    cs[x as int],
                )
            },
        forall|p: int, q: int|
            0 <= p < q < flat(cs, all_labels(cs).take(t as int)).len() ==> {
                let x = #[trigger] flat(cs, all_labels(cs).take(t as int))[p];
                let y = #[trigger] flat(cs, all_labels(cs).take(t as int))[q];
                let rx = all_labels(cs).index_of(pr_label(cs[x as int]));
                let ry = all_labels(cs).index_of(pr_label(cs[y as int]));
                rx < ry || (rx == ry && x < y)
            },
    decreases t,
{
    let ls = all_labels(cs);
    if t > 0 {
        lemma_flat_sorted(cs, (t - 1) as nat);
        lemma_labels_distinct(cs, cs.len());
        let lt = ls.take(t as int);
        assert(lt.drop_last() =~= ls.take(t - 1));
        let prev = flat(cs, ls.take(t - 1));
        let l = ls[t - 1];
        let ms = members(cs, l, cs.len());
        lemma_members_facts(cs, l, cs.len());
        let o = flat(cs, lt);
        assert(o == prev + ms);
        assert(ls.index_of(l) == t - 1) by {
            assert(ls.contains(l));
            let r = ls.index_of(l);
            assert(ls[r] == l);
        }
        assert forall|p: int| 0 <= p < o.len() implies {
            let x = #[trigger] o[p];
            &&& x < cs.len()
            &&& ls.index_of(pr_label(cs[x as int])) < t
            &&& ls[ls.index_of(pr_label(cs[x as int]))] == pr_label(cs[x as int])
        } by {
            if p >= prev.len() {
                assert(o[p] == ms[p - prev.len()]);
            } else {
                assert(o[p] == prev[p]);
            }
        }
        assert forall|p: int, q: int| 0 <= p < q < o.len() implies {
            let x = #[trigger] o[p];
            let y = #[trigger] o[q];
            let rx = ls.index_of(pr_label(cs[x as int]));
            let ry = ls.index_of(pr_label(cs[y as int]));
            rx < ry || (rx == ry && x < y)
        } by {
            if q < prev.len() {
                assert(o[p] == prev[p] && o[q] == prev[q]);
            } else if p < prev.len() {
                assert(o[p] == prev[p]);
                assert(o[q] == ms[q - prev.len()]);
            } else {
                assert(o[p] == ms[p - prev.len()]);
                assert(o[q] == ms[q - prev.len()]);
            }
        }
    } else {
        assert(ls.take(0) =~= Seq::<Seq<char>>::empty());
    }
}

proof fn lemma_flat_covers(cs: Seq<CommitInfo>, ls: Seq<Seq<char>>)
    ensures
        forall|g: int, j: int|
            0 <= g < ls.len() && 0 <= j < members(cs, ls[g], cs.len()).len() ==> flat(cs, ls).contains(
                #[trigger] members(cs, #[trigger] ls[g], cs.len())[j],
            ),
    decreases ls.len(),
{
    if ls.len() > 0 {
        let init = ls.drop_last();
        lemma_flat_covers(cs, init);
        let prev = flat(cs, init);
        let o = flat(cs, ls);
        assert forall|g: int, j: int|
            0 <= g < ls.len() && 0 <= j < members(cs, ls[g], cs.len()).len() implies o.contains(
            #[trigger] members(cs, #[trigger] ls[g], cs.len())[j]) by {
            let x = members(cs, ls[g], cs.len())[j];
            if g < init.len() {
                assert(init[g] == ls[g]);
                let p = choose|p: int| 0 <= p < prev.len() && prev[p] == x;
                assert(o[p] == x);
            } else {
                assert(o[prev.len() + j] == x);
            }
        }
    }
}

/// Commits that share a label stand together, in their input order;
/// the groups stand in the order in which their labels first appear; and
/// every commit stands exactly once.
pub proof fn lemma_grouping(cs: Seq<CommitInfo>)
    requires
        cs.len() <= usize::MAX,
    ensures
        ({
            let ord = commit_order(entries_of(cs));
            &&& ord.len() == cs.len()
            &&& ord.no_duplicates()
            &&& forall|p: int| 0 <= p < ord.len() ==> #[trigger] ord[p] < cs.len()
            &&& forall|i: usize| i < cs.len() ==> #[trigger] ord.contains(i)
            &&& forall|p: int, q: int, r: int|
                0 <= p < q < r < ord.len() && pr_label(cs[#[trigger] ord[p] as int]) == pr_label(
                    cs[#[trigger] ord[r] as int],
                ) ==> pr_label(cs[#[trigger] ord[q] as int]) == pr_label(cs[ord[p] as int])
            &&& forall|p: int, q: int|
                0 <= p < q < ord.len() && pr_label(cs[#[trigger] ord[p] as int]) == pr_label(
                    cs[#[trigger] ord[q] as int],
                ) ==> ord[p] < ord[q]
            &&& forall|p: int, q: int|
                0 <= p < q < ord.len() && pr_label(cs[#[trigger] ord[p] as int]) != pr_label(
                    cs[#[trigger] ord[q] as int],
                ) ==> first_with_label(cs, pr_label(cs[ord[p] as int])) < first_with_label(
                    cs,
                    pr_label(cs[ord[q] as int]),
                )
        }),
{
    let ls = all_labels(cs);
    let n = cs.len();
    let es = entries_of(cs);
    let ord = commit_order(es);
    lemma_order_layout(cs, ls, indent_of(cs) as usize);
    assert(ls.take(ls.len() as int) =~= ls);
    lemma_flat_sorted(cs, ls.len());
    assert(ord == flat(cs, ls));
    lemma_order_len(es);
    lemma_entry_count(cs);
    lemma_labels_distinct(cs, n);
    lemma_labels_cover(cs, n);
    lemma_first_order(cs, n);
    lemma_flat_covers(cs, ls);
    assert forall|i: usize| i < n implies #[trigger] ord.contains(i) by {
        let l = pr_label(cs[i as int]);
        assert(ls.contains(l));
        let g = choose|g: int| 0 <= g < ls.len() && ls[g] == l;
        lemma_members_facts(cs, l, n);
        assert(members(cs, l, n).contains(i as usize));
        let j = choose|j: int| 0 <= j < members(cs, l, n).len() && members(cs, l, n)[j] == i as usize;
        assert(flat(cs, ls).contains(members(cs, ls[g], n)[j]));
    }
    assert forall|p: int, q: int| 0 <= p < q < ord.len() implies ord[p] != ord[q] by {
        assert(ord[p] == flat(cs, ls)[p]);
    }
    assert forall|p: int, q: int|
        0 <= p < q < ord.len() && pr_label(cs[#[trigger] ord[p] as int]) != pr_label(
            cs[#[trigger] ord[q] as int],
        ) implies first_with_label(cs, pr_label(cs[ord[p] as int])) < first_with_label(
        cs,
        pr_label(cs[ord[q] as int]),
    ) by {
        let rx = ls.index_of(pr_label(cs[ord[p] as int]));
        let ry = ls.index_of(pr_label(cs[ord[q] as int]));
        assert(rx < ry);
        assert(members(cs, ls[rx], n)[0] < members(cs, ls[ry], n)[0]);
    }
}

/// Whether the row at `p`, if it is a commit row, is followed by one file
/// row for each file of its commit, in file order, and then by a commit row
/// or the end of the list.
pub open spec fn rows_follow(es: Seq<EntryView>, p: int, cs: Seq<CommitInfo>) -> bool {
    match es[p] {
        EntryView::Commit { commit, indent, .. } => {
            let n = file_count(cs, commit as int);
            &&& p + 1 + n <= es.len()
            &&& forall|f: int|
                0 <= f < n ==> #[trigger] es[p + 1 + f] == EntryView::Path {
                    commit,
                    file: f as usize,
                    indent,
                }
            &&& p + 1 + n < es.len() ==> es[p + 1 + n] is Commit
        },
        EntryView::Path { .. } => true,
    }
}

/// Whether a commit row carries its group's label exactly when its commit
/// is the first one with that label.
pub open spec fn label_placed(e: EntryView, cs: Seq<CommitInfo>) -> bool {
    match e {
        EntryView::Commit { commit, label, .. } => label == if commit == first_with_label(
            cs,
            pr_label(cs[commit as int]),
        ) {
            Some(pr_label(cs[commit as int]))
        } else {
            None
        },
        EntryView::Path { .. } => true,
    }
}

spec fn blocks_ok(es: Seq<EntryView>, cs: Seq<CommitInfo>) -> bool {
    &&& es.len() > 0 ==> es[0] is Commit
    &&& forall|p: int| 0 <= p < es.len() ==> #[trigger] rows_follow(es, p, cs)
}

proof fn lemma_blocks_concat(a: Seq<EntryView>, b: Seq<EntryView>, cs: Seq<CommitInfo>)
    requires
        blocks_ok(a, cs),
        blocks_ok(b, cs),
    ensures
        blocks_ok(a + b, cs),
{
    let s = a + b;
    assert forall|p: int| 0 <= p < s.len() implies #[trigger] rows_follow(s, p, cs) by {
        if p < a.len() {
            assert(rows_follow(a, p, cs));
            assert(s[p] == a[p]);
            if let EntryView::Commit { commit, indent, .. } = a[p] {
                let n = file_count(cs, commit as int);
                assert forall|f: int| 0 <= f < n implies #[trigger] s[p + 1 + f] == EntryView::Path {
                    commit,
                    file: f as usize,
                    indent,
                } by {
                    assert(a[p + 1 + f] == EntryView::Path { commit, file: f as usize, indent });
                }
                if p + 1 + n < s.len() {
                    if p + 1 + n < a.len() {
                        assert(s[p + 1 + n] == a[p + 1 + n]);
                    } else {
                        assert(s[p + 1 + n] == b[0]);
                    }
                }
            }
        } else {
            let q = p - a.len();
            assert(rows_follow(b, q, cs));
            assert(s[p] == b[q]);
            if let EntryView::Commit { commit, indent, .. } = b[q] {
                let n = file_count(cs, commit as int);
                assert forall|f: int| 0 <= f < n implies #[trigger] s[p + 1 + f] == EntryView::Path {
                    commit,
                    file: f as usize,
                    indent,
                } by {
                    assert(s[p + 1 + f] == b[q + 1 + f]);
                }
                if p + 1 + n < s.len() {
                    assert(s[p + 1 + n] == b[q + 1 + n]);
                }
            }
        }
    }
    if a.len() == 0 && b.len() > 0 {
        assert(s[0] == b[0]);
    }
}

proof fn lemma_block_ok(cs: Seq<CommitInfo>, c: usize, label: Option<Seq<char>>, indent: usize)
    ensures
        blocks_ok(commit_block(cs, c, label, indent), cs),
{
    let s = commit_block(cs, c, label, indent);
    assert forall|p: int| 0 <= p < s.len() implies #[trigger] rows_follow(s, p, cs) by {
        if p == 0 {
            let n = file_count(cs, c as int);
            assert forall|f: int| 0 <= f < n implies #[trigger] s[0 + 1 + f] == EntryView::Path {
                commit: c,
                file: f as usize,
                indent,
            } by {}
        }
    }
}

proof fn lemma_group_ok(cs: Seq<CommitInfo>, ms: Seq<usize>, l: Seq<char>, indent: usize)
    requires
        cs.len() <= usize::MAX,
        ms.len() <= members(cs, l, cs.len()).len(),
        ms == members(cs, l, cs.len()).take(ms.len() as int),
    ensures
        blocks_ok(group_blocks(cs, ms, l, indent), cs),
        forall|p: int|
            0 <= p < group_blocks(cs, ms, l, indent).len() ==> label_placed(
                #[trigger] group_blocks(cs, ms, l, indent)[p],
                cs,
            ),
    decreases ms.len(),
{
    if ms.len() > 0 {
        let m = members(cs, l, cs.len());
        assert(ms.drop_last() =~= m.take(ms.len() - 1));
        lemma_group_ok(cs, ms.drop_last(), l, indent);
        let c = ms.last();
        let lab = if ms.len() == 1 { Some(l) } else { None };
        let prev = group_blocks(cs, ms.drop_last(), l, indent);
        let blk = commit_block(cs, c, lab, indent);
        lemma_block_ok(cs, c, lab, indent);
        lemma_blocks_concat(prev, blk, cs);
        lemma_members_facts(cs, l, cs.len());
        assert(c == m[ms.len() - 1]);
        assert(pr_label(cs[c as int]) == l);
        assert(first_with_label(cs, l) == m[0]);
        if ms.len() > 1 {
            assert(m[0] < m[ms.len() - 1]);
        }
        assert(label_placed(blk[0], cs));
        let s = prev + blk;
        assert forall|p: int| 0 <= p < s.len() implies label_placed(#[trigger] s[p], cs) by {
            if p < prev.len() {
                assert(s[p] == prev[p]);
            } else {
                assert(s[p] == blk[p - prev.len()]);
            }
        }
    }
}

proof fn lemma_layout_ok(cs: Seq<CommitInfo>, ls: Seq<Seq<char>>, indent: usize)
    requires
        cs.len() <= usize::MAX,
    ensures
        blocks_ok(layout(cs, ls, indent), cs),
        forall|p: int|
            0 <= p < layout(cs, ls, indent).len() ==> label_placed(
                #[trigger] layout(cs, ls, indent)[p],
                cs,
            ),
    decreases ls.len(),
{
    if ls.len() > 0 {
        lemma_layout_ok(cs, ls.drop_last(), indent);
        let m = members(cs, ls.last(), cs.len());
        assert(m.take(m.len() as int) =~= m);
        lemma_group_ok(cs, m, ls.last(), indent);
        let prev = layout(cs, ls.drop_last(), indent);
        let g = group_blocks(cs, m, ls.last(), indent);
        lemma_blocks_concat(prev, g, cs);
        let s = prev + g;
        assert forall|p: int| 0 <= p < s.len() implies label_placed(#[trigger] s[p], cs) by {
            if p < prev.len() {
                assert(s[p] == prev[p]);
            } else {
                assert(s[p] == g[p - prev.len()]);
            }
        }
    }
}

/// The list starts with a commit row; each commit row is followed by one
/// file row per file of its commit, in file order, and then by the next
/// commit row or the end; and a commit row carries its label exactly when
/// its commit is the first one with that label.
pub proof fn lemma_row_structure(cs: Seq<CommitInfo>)
    requires
        cs.len() <= usize::MAX,
    ensures
        entries_of(cs).len() > 0 ==> entries_of(cs)[0] is Commit,
        forall|p: int| 0 <= p < entries_of(cs).len() ==> #[trigger] rows_follow(entries_of(cs), p, cs),
        forall|p: int|
            0 <= p < entries_of(cs).len() ==> label_placed(#[trigger] entries_of(cs)[p], cs),
{
    lemma_layout_ok(cs, all_labels(cs), indent_of(cs) as usize);
}

} // verus!
