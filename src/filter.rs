//! The path filter: a changed file counts only if none of its path
//! components is one of the filtered names.

use vstd::prelude::*;
use vstd::string::{StrSliceExecFns, StringExecFns};
use crate::text::{push_char, trim, trimmed};

verus! {

/// The characters of each string.
pub open spec fn strings_view(v: Seq<String>) -> Seq<Seq<char>> {
    v.map_values(|s: String| s@)
}

/// Whether `p[i..j]` is a whole, non-empty `/`-separated component of `p`.
pub open spec fn is_component(p: Seq<char>, i: int, j: int) -> bool {
    &&& 0 <= i < j <= p.len()
    &&& i == 0 || p[i - 1] == '/'
    &&& j == p.len() || p[j] == '/'
    &&& forall|h: int| i <= h < j ==> #[trigger] p[h] != '/'
}

/// Whether some component of path `p` is one of `comps`.
pub open spec fn filtered_by(p: Seq<char>, comps: Seq<Seq<char>>) -> bool {
    exists|i: int, j: int| is_component(p, i, j) && comps.contains(#[trigger] p.subrange(i, j))
}

/// The names filtered out of every history.
pub open spec fn default_components() -> Seq<Seq<char>> {
    seq![
        ".github"@,
        "CHANGELOG.md"@,
        "Cargo.toml"@,
        "Cargo.lock"@,
        "examples"@,
        "fixtures"@,
        "tests"@,
    ]
}

/// `t` cut at each `sep`; always at least one piece.
pub open spec fn split_on(t: Seq<char>, sep: char) -> Seq<Seq<char>>
    decreases t.len(),
{
    if t.len() == 0 {
        seq![seq![]]
    } else {
        let r = split_on(t.drop_last(), sep);
        if t.last() == sep {
            r.push(seq![])
        } else {
            r.update(r.len() - 1, r.last().push(t.last()))
        }
    }
}

/// The trimmed lines of `ls` that are not empty once trimmed.
pub open spec fn nonempty_trimmed(ls: Seq<Seq<char>>) -> Seq<Seq<char>>
    decreases ls.len(),
{
    if ls.len() == 0 {
        seq![]
    } else {
        let r = nonempty_trimmed(ls.drop_last());
        if trimmed(ls.last()).len() > 0 {
            r.push(trimmed(ls.last()))
        } else {
            r
        }
    }
}

/// The names listed in a configuration text: one per line, trimmed, blank
/// lines skipped.
pub open spec fn config_components(text: Seq<char>) -> Seq<Seq<char>> {
    nonempty_trimmed(split_on(text, '\n'))
}

proof fn lemma_split_len(t: Seq<char>, sep: char)
    ensures
        split_on(t, sep).len() >= 1,
    decreases t.len(),
{
    if t.len() > 0 {
        lemma_split_len(t.drop_last(), sep);
    }
}

/// Whether `s` is one of `names`.
fn listed(names: &[String], s: &String) -> (r: bool)
    ensures
        r == strings_view(names@).contains(s@),
{
    let ghost v = strings_view(names@);
    let mut k: usize = 0;
    while k < names.len()
        invariant
            k <= names@.len(),
            v == strings_view(names@),
            forall|h: int| 0 <= h < k ==> #[trigger] v[h] != s@,
        decreases names@.len() - k,
    {
        if names[k] == *s {
            assert(v[k as int] == s@);
            return true;
        }
        k += 1;
    }
    false
}

/// Whether a component of `path` is one of `components`.
pub fn is_filtered(path: &str, components: &[String]) -> (r: bool)
    ensures
        r == filtered_by(path@, strings_view(components@)),
{
    let ghost p = path@;
    let ghost comps = strings_view(components@);
    let n = path.unicode_len();
    let mut start: usize = 0;
    let mut i: usize = 0;
    while i < n
        invariant
            p == path@,
            comps == strings_view(components@),
            n == p.len(),
            start <= i <= n,
            start == 0 || p[start - 1] == '/',
            forall|h: int| start <= h < i ==> #[trigger] p[h] != '/',
            forall|a: int, b: int|
                is_component(p, a, b) && b < start ==> !comps.contains(#[trigger] p.subrange(a, b)),
        decreases n - i,
    {
        if path.get_char(i) == '/' {
            if start < i {
                let piece = path.substring_char(start, i).to_owned();
                if listed(components, &piece) {
                    assert(is_component(p, start as int, i as int));
                    return true;
                }
            }
            assert forall|a: int, b: int|
                is_component(p, a, b) && b < i + 1 implies !comps.contains(
                #[trigger] p.subrange(a, b),
            ) by {
                if b >= start {
                    assert(b == i);
                    if a < start {
                        assert(p[start - 1] == '/');
                    }
                    if a > start {
                        assert(p[a - 1] != '/');
                    }
                }
            }
            start = i + 1;
        }
        i += 1;
    }
    if start < n {
        let piece = path.substring_char(start, n).to_owned();
        if listed(components, &piece) {
            assert(is_component(p, start as int, n as int));
            return true;
        }
    }
    assert forall|a: int, b: int| is_component(p, a, b) implies !comps.contains(
        #[trigger] p.subrange(a, b),
    ) by {
        if b >= start {
            assert(b == n);
            if a < start {
                assert(p[start - 1] == '/');
            }
            if a > start {
                assert(p[a - 1] != '/');
            }
        }
    }
    false
}

/// The filtered names: the defaults, then those of the configuration text
/// `config`, if there is one.
pub fn filtered_components(config: Option<&str>) -> (r: Vec<String>)
    ensures
        strings_view(r@) == default_components() + match config {
            Some(text) => config_components(text@),
            None => seq![],
        },
{
    let mut components: Vec<String> = Vec::new();
    components.push(String::from_str(".github"));
    components.push(String::from_str("CHANGELOG.md"));
    components.push(String::from_str("Cargo.toml"));
    components.push(String::from_str("Cargo.lock"));
    components.push(String::from_str("examples"));
    components.push(String::from_str("fixtures"));
    components.push(String::from_str("tests"));
    assert(strings_view(components@) =~= default_components());
    if let Some(text) = config {
        let extra = config_lines(text);
        let mut k: usize = 0;
        while k < extra.len()
            invariant
                k <= extra@.len(),
                strings_view(components@) == default_components() + strings_view(extra@).take(
                    k as int,
                ),
            decreases extra@.len() - k,
        {
            let item = extra[k].clone();
            assert(strings_view(extra@)[k as int] == item@);
            assert(strings_view(extra@).take(k + 1) =~= strings_view(extra@).take(k as int).push(item@));
            let ghost old_components = components@;
            components.push(item);
            assert(strings_view(components@) =~= strings_view(old_components).push(item@));
            assert(strings_view(components@) =~= default_components() + strings_view(extra@).take(
                k + 1,
            ));
            k += 1;
        }
        assert(strings_view(extra@).take(extra@.len() as int) =~= strings_view(extra@));
    } else {
        assert(default_components() + Seq::<Seq<char>>::empty() =~= default_components());
    }
    components
}

/// The names listed in `text`, one per line, trimmed, blank lines skipped.
pub fn config_lines(text: &str) -> (r: Vec<String>)
    ensures
        strings_view(r@) == config_components(text@),
{
    let ghost t = text@;
    let n = text.unicode_len();
    let mut found: Vec<String> = Vec::new();
    let mut line = String::new();
    let mut i: usize = 0;
    proof {
        lemma_split_len(t.take(0), '\n');
        assert(t.take(0) =~= Seq::<char>::empty());
    }
    while i < n
        invariant
            t == text@,
            n == t.len(),
            i <= n,
            split_on(t.take(i as int), '\n').len() >= 1,
            strings_view(found@) == nonempty_trimmed(split_on(t.take(i as int), '\n').drop_last()),
            line@ == split_on(t.take(i as int), '\n').last(),
        decreases n - i,
    {
        let c = text.get_char(i);
        let ghost prev = split_on(t.take(i as int), '\n');
        assert(t.take(i + 1).drop_last() =~= t.take(i as int));
        assert(t.take(i + 1).last() == c);
        if c == '\n' {
            let ghost cur = split_on(t.take(i + 1), '\n');
            assert(cur == prev.push(seq![]));
            assert(cur.drop_last() =~= prev);
            let trimmed_line = trim(line.as_str());
            if trimmed_line.as_str().unicode_len() > 0 {
                found.push(trimmed_line);
            }
            assert(strings_view(found@) =~= nonempty_trimmed(cur.drop_last()));
            line = String::new();
        } else {
            let ghost cur = split_on(t.take(i + 1), '\n');
            assert(cur.drop_last() =~= prev.drop_last());
            push_char(&mut line, c);
        }
        i += 1;
    }
    assert(t.take(n as int) =~= t);
    let ghost all = split_on(t, '\n');
    let trimmed_line = trim(line.as_str());
    if trimmed_line.as_str().unicode_len() > 0 {
        found.push(trimmed_line);
    }
    assert(strings_view(found@) =~= nonempty_trimmed(all));
    found
}

/// The path that a changed file is listed under: its new path, or its old
/// one when it has none; `None` when it has neither or when the path is
/// filtered.
pub fn retained_path(
    new_path: Option<String>,
    old_path: Option<String>,
    components: &[String],
) -> (r: Option<String>)
    ensures
        ({
            let chosen = if new_path is Some {
                new_path
            } else {
                old_path
            };
            match chosen {
                Some(p) => if filtered_by(p@, strings_view(components@)) {
                    r is None
                } else {
                    r == Some(p)
                },
                None => r is None,
            }
        }),
{
    let chosen = match new_path {
        Some(p) => Some(p),
        None => old_path,
    };
    match chosen {
        Some(p) => {
            if is_filtered(p.as_str(), components) {
                None
            } else {
                Some(p)
            }
        },
        None => None,
    }
}

} // verus!
