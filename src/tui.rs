//! The interactive state: the entry list, the selection, the two panes and
//! the key bindings that drive them.

use vstd::prelude::*;
use vstd::string::StrSliceExecFns;
use crate::entries::{EntryView, ListEntry, entries_from_commits, entries_of, entries_view, first_entry};
use crate::git::{CommitInfo, FileDiff};
use crate::laws::lemma_entry_count;
use crate::text::{pop_char, push_char, trim, trimmed};

verus! {

/// The narrowest terminal on which the add-component popup is offered.
pub const POPUP_MIN_WIDTH: u16 = 40;

/// The pane that has the focus.
#[derive(Clone, Copy, PartialEq, Eq, Structural, Debug)]
pub enum Pane {
    Left,
    Right,
}

/// Whether keys navigate or edit the name of a new filtered component.
#[derive(Clone, Copy, PartialEq, Eq, Structural, Debug)]
pub enum InputMode {
    Normal,
    AddComponent,
}

/// A key press, as far as the bindings tell keys apart.
#[derive(Clone, Copy, PartialEq, Eq, Structural, Debug)]
pub enum Key {
    Char(char),
    Esc,
    Enter,
    Backspace,
    Tab,
    BackTab,
    Left,
    Right,
    Up,
    Down,
    Other,
}

/// The state of an interactive session.
pub struct App {
    pub commits: Vec<CommitInfo>,
    pub entries: Vec<ListEntry>,
    pub focus: Pane,
    /// The first visible row of the list.
    pub offset: usize,
    /// The selected row.
    pub selected: usize,
    /// The first visible line of the diff pane.
    pub diff_scroll: usize,
    pub should_quit: bool,
    pub save_proposed_changelog: bool,
    pub input_mode: InputMode,
    pub input_buffer: String,
    /// The revision that the history starts after.
    pub revision: String,
}

/// What an [`App`] holds, with its text as characters.
pub struct AppView {
    pub commits: Seq<CommitInfo>,
    pub entries: Seq<EntryView>,
    pub focus: Pane,
    pub offset: usize,
    pub selected: usize,
    pub diff_scroll: usize,
    pub should_quit: bool,
    pub save_proposed_changelog: bool,
    pub input_mode: InputMode,
    pub input_buffer: Seq<char>,
    pub revision: Seq<char>,
}

impl View for App {
    type V = AppView;

    open spec fn view(&self) -> AppView {
        AppView {
            commits: self.commits@,
            entries: entries_view(self.entries@),
            focus: self.focus,
            offset: self.offset,
            selected: self.selected,
            diff_scroll: self.diff_scroll,
            should_quit: self.should_quit,
            save_proposed_changelog: self.save_proposed_changelog,
            input_mode: self.input_mode,
            input_buffer: self.input_buffer@,
            revision: self.revision@,
        }
    }
}

/// Whether `es` has a file row.
pub open spec fn has_path(es: Seq<EntryView>) -> bool {
    exists|j: int| 0 <= j < es.len() && #[trigger] es[j] is Path
}

/// The first file row after row `i`.
pub open spec fn path_after(es: Seq<EntryView>, i: int) -> Option<int>
    decreases es.len() - i,
{
    if i + 1 >= es.len() {
        None
    } else if es[i + 1] is Path {
        Some(i + 1)
    } else {
        path_after(es, i + 1)
    }
}

/// The last file row before row `i`.
pub open spec fn path_before(es: Seq<EntryView>, i: int) -> Option<int>
    decreases i,
{
    if i <= 0 {
        None
    } else if es[i - 1] is Path {
        Some(i - 1)
    } else {
        path_before(es, i - 1)
    }
}

/// The selection that a fresh list starts with: its first file row, or 0.
pub open spec fn initial_selection(es: Seq<EntryView>) -> usize {
    match path_after(es, -1) {
        Some(j) => j as usize,
        None => 0,
    }
}

impl AppView {
    /// The entries are those of the commits, and the selection stands on a
    /// file row whenever there is one.
    pub open spec fn wf(self) -> bool {
        &&& self.commits.len() <= usize::MAX
        &&& self.entries.len() <= usize::MAX
        &&& self.entries == entries_of(self.commits)
        &&& has_path(self.entries) ==> self.selected < self.entries.len()
            && self.entries[self.selected as int] is Path
        &&& !has_path(self.entries) ==> self.selected == 0
    }

    /// The diff of the selected file row, if a file row is selected.
    pub open spec fn selected_file(self) -> Option<FileDiff> {
        if self.selected < self.entries.len() {
            match self.entries[self.selected as int] {
                EntryView::Path { commit, file, .. } => Some(
                    self.commits[commit as int].file_diffs@[file as int],
                ),
                EntryView::Commit { .. } => None,
            }
        } else {
            None
        }
    }

    /// The state after moving to the next file row.
    pub open spec fn moved_next(self) -> AppView {
        match path_after(self.entries, self.selected as int) {
            Some(j) => AppView { selected: j as usize, diff_scroll: 0, ..self },
            None => self,
        }
    }

    /// The state after moving to the previous file row; the list scrolls up
    /// so that the header of the file's commit stays in view.
    pub open spec fn moved_prev(self) -> AppView {
        match path_before(self.entries, self.selected as int) {
            Some(j) => AppView {
                selected: j as usize,
                diff_scroll: 0,
                offset: if j > 0 && self.entries[j - 1] is Commit && j - 1 < self.offset {
                    (j - 1) as usize
                } else {
                    self.offset
                },
                ..self
            },
            None => self,
        }
    }

    /// The state with the focus on the other pane.
    pub open spec fn toggled(self) -> AppView {
        AppView {
            focus: match self.focus {
                Pane::Left => Pane::Right,
                Pane::Right => Pane::Left,
            },
            ..self
        }
    }

    /// The state with the diff scrolled one line down, saturating.
    pub open spec fn scrolled_down(self) -> AppView {
        AppView {
            diff_scroll: if self.diff_scroll < usize::MAX {
                (self.diff_scroll + 1) as usize
            } else {
                self.diff_scroll
            },
            ..self
        }
    }

    /// The state with the diff scrolled one line up, stopping at 0.
    pub open spec fn scrolled_up(self) -> AppView {
        AppView {
            diff_scroll: if self.diff_scroll > 0 {
                (self.diff_scroll - 1) as usize
            } else {
                0
            },
            ..self
        }
    }

    /// The state after the add-component input is closed.
    pub open spec fn input_closed(self) -> AppView {
        AppView { input_mode: InputMode::Normal, input_buffer: seq![], ..self }
    }

    /// The state after `key` is pressed on a terminal `width` columns wide.
    pub open spec fn after_key(self, key: Key, width: Option<u16>) -> AppView {
        match self.input_mode {
            InputMode::Normal => {
                if key == Key::Esc || key == Key::Char('q') {
                    AppView { should_quit: true, ..self }
                } else if key == Key::Char('s') {
                    AppView { should_quit: true, save_proposed_changelog: true, ..self }
                } else if key == Key::Char('i') {
                    if width is Some && width->0 >= POPUP_MIN_WIDTH {
                        AppView { input_mode: InputMode::AddComponent, ..self }
                    } else {
                        self
                    }
                } else if key == Key::Tab || key == Key::BackTab {
                    self.toggled()
                } else if key == Key::Left {
                    AppView { focus: Pane::Left, ..self }
                } else if key == Key::Right {
                    AppView { focus: Pane::Right, ..self }
                } else if key == Key::Up {
                    if self.focus == Pane::Left {
                        self.moved_prev()
                    } else {
                        self.scrolled_up()
                    }
                } else if key == Key::Down {
                    if self.focus == Pane::Left {
                        self.moved_next()
                    } else {
                        self.scrolled_down()
                    }
                } else {
                    self
                }
            },
            InputMode::AddComponent => {
                if key == Key::Esc || key == Key::Enter {
                    self.input_closed()
                } else if key == Key::Backspace {
                    AppView {
                        input_buffer: if self.input_buffer.len() > 0 {
                            self.input_buffer.drop_last()
                        } else {
                            self.input_buffer
                        },
                        ..self
                    }
                } else if key is Char && key->0 != '/' && key->0 != '.' {
                    AppView { input_buffer: self.input_buffer.push(key->0), ..self }
                } else {
                    self
                }
            },
        }
    }

    /// The component that `key` submits, to be added to the filter.
    pub open spec fn submitted(self, key: Key) -> Option<Seq<char>> {
        if self.input_mode == InputMode::AddComponent && key == Key::Enter && trimmed(
            self.input_buffer,
        ).len() > 0 {
            Some(trimmed(self.input_buffer))
        } else {
            None
        }
    }
}

proof fn lemma_path_after(es: Seq<EntryView>, i: int)
    requires
        -1 <= i,
    ensures
        match path_after(es, i) {
            Some(j) => i < j < es.len() && es[j] is Path && forall|h: int|
                i < h < j ==> #[trigger] es[h] is Commit,
            None => forall|h: int| i < h < es.len() ==> #[trigger] es[h] is Commit,
        },
    decreases es.len() - i,
{
    if i + 1 < es.len() && !(es[i + 1] is Path) {
        lemma_path_after(es, i + 1);
    }
}

proof fn lemma_path_before(es: Seq<EntryView>, i: int)
    requires
        i <= es.len(),
    ensures
        match path_before(es, i) {
            Some(j) => 0 <= j < i && es[j] is Path && forall|h: int|
                j < h < i ==> #[trigger] es[h] is Commit,
            None => forall|h: int| 0 <= h < i ==> #[trigger] es[h] is Commit,
        },
    decreases i,
{
    if i > 0 && !(es[i - 1] is Path) {
        lemma_path_before(es, i - 1);
    }
}

/// Moving never lands on a commit row and keeps the state well formed;
/// from the last file row `next` changes nothing, and from the first
/// `prev` changes nothing.
pub proof fn lemma_navigation(a: AppView)
    requires
        a.wf(),
    ensures
        a.moved_next().wf(),
        a.moved_prev().wf(),
        a.moved_next().selected != a.selected ==> a.moved_next().entries[a.moved_next().selected as int] is Path,
        a.moved_prev().selected != a.selected ==> a.moved_prev().entries[a.moved_prev().selected as int] is Path,
        (forall|j: int| a.selected < j < a.entries.len() ==> #[trigger] a.entries[j] is Commit)
            ==> a.moved_next() == a,
        (forall|j: int| 0 <= j < a.selected ==> #[trigger] a.entries[j] is Commit) ==> a.moved_prev()
            == a,
{
    lemma_path_after(a.entries, a.selected as int);
    lemma_path_before(a.entries, a.selected as int);
    match path_after(a.entries, a.selected as int) {
        Some(j) => {
            assert(a.moved_next().entries[j] is Path);
            assert(has_path(a.entries));
        },
        None => {},
    }
    match path_before(a.entries, a.selected as int) {
        Some(j) => {
            assert(a.moved_prev().entries[j] is Path);
            assert(has_path(a.entries));
        },
        None => {},
    }
}

/// The selection for a freshly built list.
fn fresh_selection(entries: &Vec<ListEntry>) -> (r: usize)
    ensures
        r == initial_selection(entries_view(entries@)),
        has_path(entries_view(entries@)) ==> r < entries@.len() && entries_view(entries@)[r as int] is Path,
        !has_path(entries_view(entries@)) ==> r == 0,
{
    let ghost es = entries_view(entries@);
    proof {
        lemma_path_after(es, -1);
    }
    let r = match first_entry(entries.as_slice()) {
        Some(i) => i,
        None => 0,
    };
    proof {
        match path_after(es, -1) {
            Some(j) => {
                assert(es[j] == entries@[j]@);
                assert(es[r as int] == entries@[r as int]@);
                assert(es[j] is Path);
                assert(has_path(es));
            },
            None => {
                if has_path(es) {
                    let j = choose|j: int| 0 <= j < es.len() && #[trigger] es[j] is Path;
                    assert(es[j] == entries@[j]@);
                }
            },
        }
    }
    r
}

impl App {
    /// A session over `commits`, selecting the first file row.
    pub fn new(commits: Vec<CommitInfo>, revision: String) -> (r: App)
        ensures
            r@ == (AppView {
                commits: commits@,
                entries: entries_of(commits@),
                focus: Pane::Left,
                offset: 0,
                selected: initial_selection(entries_of(commits@)),
                diff_scroll: 0,
                should_quit: false,
                save_proposed_changelog: false,
                input_mode: InputMode::Normal,
                input_buffer: seq![],
                revision: revision@,
            }),
            r@.wf(),
    {
        // Asking for the lengths brings in that they fit in a `usize`.
        let _ = commits.len();
        let entries = entries_from_commits(commits.as_slice());
        let _ = entries.len();
        let selected = fresh_selection(&entries);
        App {
            commits,
            entries,
            focus: Pane::Left,
            offset: 0,
            selected,
            diff_scroll: 0,
            should_quit: false,
            save_proposed_changelog: false,
            input_mode: InputMode::Normal,
            input_buffer: String::new(),
            revision,
        }
    }

    /// Replaces the history with `commits`, rebuilding the list and
    /// starting over at its first file row.
    pub fn reload(&mut self, commits: Vec<CommitInfo>)
        ensures
            final(self)@ == (AppView {
                commits: commits@,
                entries: entries_of(commits@),
                selected: initial_selection(entries_of(commits@)),
                offset: 0,
                diff_scroll: 0,
                ..old(self)@
            }),
            final(self)@.wf(),
    {
        // Asking for the lengths brings in that they fit in a `usize`.
        let _ = commits.len();
        let entries = entries_from_commits(commits.as_slice());
        let _ = entries.len();
        let selected = fresh_selection(&entries);
        self.entries = entries;
        self.commits = commits;
        self.selected = selected;
        self.offset = 0;
        self.diff_scroll = 0;
    }

    /// The diff of the selected file, if a file row is selected.
    pub fn selected_file_diff(&self) -> (r: Option<&FileDiff>)
        requires
            self@.wf(),
        ensures
            match r {
                Some(d) => self@.selected_file() == Some(*d),
                None => self@.selected_file() is None,
            },
    {
        if self.selected >= self.entries.len() {
            return None;
        }
        proof {
            lemma_entry_count(self.commits@);
            assert(self@.entries[self.selected as int] == self.entries@[self.selected as int]@);
        }
        match &self.entries[self.selected] {
            ListEntry::Path { commit_idx, file_idx, .. } => Some(
                &self.commits[*commit_idx].file_diffs[*file_idx],
            ),
            ListEntry::Commit { .. } => None,
        }
    }

    /// Selects the next file row, if there is one after the selection.
    pub fn next(&mut self)
        requires
            old(self)@.wf(),
        ensures
            final(self)@ == old(self)@.moved_next(),
            final(self)@.wf(),
    {
        proof {
            lemma_navigation(self@);
        }
        let ghost es = self@.entries;
        let mut next = self.selected + 1;
        while next < self.entries.len()
            invariant
                *self == *old(self),
                old(self)@.wf(),
                es == self@.entries,
                es.len() == self.entries@.len(),
                1 <= next,
                path_after(es, self.selected as int) == path_after(es, next - 1),
            decreases self.entries@.len() - next,
        {
            assert(es[next as int] == self.entries@[next as int]@);
            if let ListEntry::Path { .. } = &self.entries[next] {
                assert(path_after(es, next - 1) == Some(next as int));
                self.selected = next;
                self.diff_scroll = 0;
                assert(self@ == old(self)@.moved_next());
                proof {
                    lemma_navigation(old(self)@);
                }
                return;
            }
            next += 1;
        }
    }

    /// Selects the previous file row, if there is one before the
    /// selection, keeping the header of its commit in view.
    pub fn prev(&mut self)
        requires
            old(self)@.wf(),
        ensures
            final(self)@ == old(self)@.moved_prev(),
            final(self)@.wf(),
    {
        proof {
            lemma_navigation(self@);
        }
        let ghost es = self@.entries;
        let mut prev = self.selected;
        while prev > 0
            invariant
                *self == *old(self),
                old(self)@.wf(),
                es == self@.entries,
                es.len() == self.entries@.len(),
                prev <= es.len(),
                path_before(es, self.selected as int) == path_before(es, prev as int),
            decreases prev,
        {
            prev -= 1;
            assert(es[prev as int] == self.entries@[prev as int]@);
            if let ListEntry::Path { .. } = &self.entries[prev] {
                self.selected = prev;
                self.diff_scroll = 0;
                // Keep the commit header above this file in view.
                if prev > 0 {
                    assert(es[prev - 1] == self.entries@[prev - 1]@);
                    if let ListEntry::Commit { .. } = &self.entries[prev - 1] {
                        if prev - 1 < self.offset {
                            self.offset = prev - 1;
                        }
                    }
                }
                assert(path_before(es, prev + 1) == Some(prev as int));
                assert(self@ == old(self)@.moved_prev());
                proof {
                    lemma_navigation(old(self)@);
                }
                return;
            }
        }
    }

    /// Moves the focus to the other pane.
    pub fn toggle_focus(&mut self)
        ensures
            final(self)@ == old(self)@.toggled(),
    {
        self.focus = match self.focus {
            Pane::Left => Pane::Right,
            Pane::Right => Pane::Left,
        };
    }

    /// Scrolls the diff one line down, saturating.
    pub fn scroll_diff_down(&mut self)
        ensures
            final(self)@ == old(self)@.scrolled_down(),
    {
        if self.diff_scroll < usize::MAX {
            self.diff_scroll = self.diff_scroll + 1;
        }
    }

    /// Scrolls the diff one line up, stopping at the top.
    pub fn scroll_diff_up(&mut self)
        ensures
            final(self)@ == old(self)@.scrolled_up(),
    {
        if self.diff_scroll > 0 {
            self.diff_scroll = self.diff_scroll - 1;
        }
    }

    /// Closes the add-component input and returns the trimmed component to
    /// add to the filter, or `None` when nothing but white space was typed.
    pub fn submit_component(&mut self) -> (r: Option<String>)
        ensures
            final(self)@ == old(self)@.input_closed(),
            match r {
                Some(c) => c@ == trimmed(old(self)@.input_buffer) && c@.len() > 0,
                None => trimmed(old(self)@.input_buffer).len() == 0,
            },
    {
        let component = trim(self.input_buffer.as_str());
        self.input_mode = InputMode::Normal;
        self.input_buffer = String::new();
        if component.as_str().unicode_len() == 0 {
            None
        } else {
            Some(component)
        }
    }

    /// Keeps the diff scroll within the selected file for a pane showing
    /// `visible_height` lines, and returns the largest scroll, if a file is
    /// selected.
    pub fn clamp_diff_scroll(&mut self, visible_height: usize) -> (r: Option<usize>)
        requires
            old(self)@.wf(),
        ensures
            match old(self)@.selected_file() {
                Some(d) => {
                    let m = if d.lines@.len() > visible_height {
                        (d.lines@.len() - visible_height) as usize
                    } else {
                        0usize
                    };
                    &&& r == Some(m)
                    &&& final(self)@ == (AppView {
                        diff_scroll: if old(self).diff_scroll < m {
                            old(self).diff_scroll
                        } else {
                            m
                        },
                        ..old(self)@
                    })
                },
                None => r is None && final(self)@ == old(self)@,
            },
            final(self)@.wf(),
    {
        let line_count = match self.selected_file_diff() {
            Some(d) => d.lines.len(),
            None => {
                return None;
            },
        };
        let max_scroll = if line_count > visible_height {
            line_count - visible_height
        } else {
            0
        };
        if self.diff_scroll > max_scroll {
            self.diff_scroll = max_scroll;
        }
        Some(max_scroll)
    }
}

/// A key press while navigating.
fn handle_normal_key(key: Key, app: &mut App, terminal_width: Option<u16>)
    requires
        old(app)@.wf(),
        old(app).input_mode == InputMode::Normal,
    ensures
        final(app)@ == old(app)@.after_key(key, terminal_width),
        final(app)@.wf(),
{
    proof {
        lemma_navigation(app@);
    }
    match key {
        Key::Char('q') | Key::Esc => app.should_quit = true,
        Key::Char('s') => {
            app.save_proposed_changelog = true;
            app.should_quit = true;
        },
        Key::Char('i') => {
            if let Some(width) = terminal_width {
                if width >= POPUP_MIN_WIDTH {
                    app.input_mode = InputMode::AddComponent;
                }
            }
        },
        Key::Tab | Key::BackTab => app.toggle_focus(),
        Key::Left => app.focus = Pane::Left,
        Key::Right => app.focus = Pane::Right,
        Key::Up => match app.focus {
            Pane::Left => app.prev(),
            Pane::Right => app.scroll_diff_up(),
        },
        Key::Down => match app.focus {
            Pane::Left => app.next(),
            Pane::Right => app.scroll_diff_down(),
        },
        _ => {},
    }
}

/// A key press while typing a component.
fn handle_input_key(key: Key, app: &mut App) -> (r: Option<String>)
    requires
        old(app)@.wf(),
        old(app).input_mode == InputMode::AddComponent,
    ensures
        final(app)@ == old(app)@.after_key(key, None),
        final(app)@.wf(),
        crate::entries::label_view(r) == old(app)@.submitted(key),
{
    match key {
        Key::Esc => {
            app.input_mode = InputMode::Normal;
            app.input_buffer = String::new();
            None
        },
        Key::Enter => app.submit_component(),
        Key::Backspace => {
            pop_char(&mut app.input_buffer);
            None
        },
        Key::Char(c) => {
            if c != '/' && c != '.' {
                push_char(&mut app.input_buffer, c);
            }
            None
        },
        _ => None,
    }
}

/// Applies one key press to the session, on a terminal `terminal_width`
/// columns wide (if known). Returns the component that the press submits
/// for the filter; the caller records it and reloads the history.
pub fn handle_key(key: Key, app: &mut App, terminal_width: Option<u16>) -> (r: Option<String>)
    requires
        old(app)@.wf(),
    ensures
        final(app)@ == old(app)@.after_key(key, terminal_width),
        final(app)@.wf(),
        crate::entries::label_view(r) == old(app)@.submitted(key),
{
    match app.input_mode {
        InputMode::Normal => {
            handle_normal_key(key, app, terminal_width);
            None
        },
        InputMode::AddComponent => handle_input_key(key, app),
    }
}

} // verus!
