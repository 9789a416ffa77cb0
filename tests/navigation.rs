use commits_of_interest::git::{CommitInfo, DiffLine, FileDiff};
use commits_of_interest::tui::{App, InputMode, Key, POPUP_MIN_WIDTH, Pane, handle_key};

fn commit(id: &str, pr: Option<u64>, files: &[(&str, usize)]) -> CommitInfo {
    CommitInfo {
        short_id: id.to_owned(),
        oid: id.to_owned(),
        message: id.to_owned(),
        pr,
        file_diffs: files
            .iter()
            .map(|(p, n)| FileDiff {
                path: p.to_string(),
                lines: (0..*n).map(|i| DiffLine { origin: '+', content: format!("l{i}") }).collect(),
            })
            .collect(),
    }
}

// Rows: 0 C(a), 1 P(a.rs), 2 P(b.rs), 3 C(b), 4 P(c.rs)
fn sample() -> App {
    App::new(
        vec![commit("a", Some(1), &[("a.rs", 10), ("b.rs", 2)]), commit("b", Some(2), &[("c.rs", 30)])],
        "v1".to_owned(),
    )
}

#[test]
fn starts_on_first_file() {
    let app = sample();
    assert_eq!(app.selected, 1);
    assert_eq!(app.offset, 0);
    assert_eq!(app.focus, Pane::Left);
    assert_eq!(app.selected_file_diff().unwrap().path, "a.rs");
    let empty = App::new(Vec::new(), "v1".to_owned());
    assert_eq!(empty.selected, 0);
    assert!(empty.selected_file_diff().is_none());
}

#[test]
fn next_skips_commit_rows_and_stops_at_end() {
    let mut app = sample();
    app.diff_scroll = 4;
    app.next();
    assert_eq!(app.selected, 2);
    assert_eq!(app.diff_scroll, 0);
    app.next();
    assert_eq!(app.selected, 4);
    app.diff_scroll = 3;
    app.next();
    assert_eq!(app.selected, 4);
    assert_eq!(app.diff_scroll, 3);
}

#[test]
fn prev_skips_commit_rows_keeps_header_visible_and_stops_at_start() {
    let mut app = sample();
    app.selected = 4;
    app.offset = 3;
    app.prev();
    assert_eq!(app.selected, 2);
    assert_eq!(app.offset, 3);
    app.prev();
    assert_eq!(app.selected, 1);
    assert_eq!(app.offset, 0);
    app.diff_scroll = 2;
    app.prev();
    assert_eq!(app.selected, 1);
    assert_eq!(app.diff_scroll, 2);
}

#[test]
fn focus_and_scrolling() {
    let mut app = sample();
    app.toggle_focus();
    assert_eq!(app.focus, Pane::Right);
    app.toggle_focus();
    assert_eq!(app.focus, Pane::Left);
    app.scroll_diff_up();
    assert_eq!(app.diff_scroll, 0);
    app.scroll_diff_down();
    app.scroll_diff_down();
    assert_eq!(app.diff_scroll, 2);
    app.diff_scroll = usize::MAX;
    app.scroll_diff_down();
    assert_eq!(app.diff_scroll, usize::MAX);
}

#[test]
fn clamping_the_diff_scroll() {
    let mut app = sample();
    app.diff_scroll = 100;
    assert_eq!(app.clamp_diff_scroll(4), Some(6));
    assert_eq!(app.diff_scroll, 6);
    assert_eq!(app.clamp_diff_scroll(40), Some(0));
    assert_eq!(app.diff_scroll, 0);
    let mut empty = App::new(Vec::new(), String::new());
    empty.diff_scroll = 5;
    assert_eq!(empty.clamp_diff_scroll(4), None);
    assert_eq!(empty.diff_scroll, 5);
}

#[test]
fn keys_in_normal_mode() {
    let mut app = sample();
    assert_eq!(handle_key(Key::Down, &mut app, None), None);
    assert_eq!(app.selected, 2);
    handle_key(Key::Up, &mut app, None);
    assert_eq!(app.selected, 1);
    handle_key(Key::Right, &mut app, None);
    assert_eq!(app.focus, Pane::Right);
    handle_key(Key::Down, &mut app, None);
    assert_eq!(app.diff_scroll, 1);
    assert_eq!(app.selected, 1);
    handle_key(Key::Tab, &mut app, None);
    assert_eq!(app.focus, Pane::Left);
    handle_key(Key::Char('i'), &mut app, Some(POPUP_MIN_WIDTH - 1));
    assert_eq!(app.input_mode, InputMode::Normal);
    handle_key(Key::Char('i'), &mut app, None);
    assert_eq!(app.input_mode, InputMode::Normal);
    handle_key(Key::Char('i'), &mut app, Some(POPUP_MIN_WIDTH));
    assert_eq!(app.input_mode, InputMode::AddComponent);
}

#[test]
fn quitting() {
    let mut app = sample();
    handle_key(Key::Char('q'), &mut app, None);
    assert!(app.should_quit && !app.save_proposed_changelog);
    let mut app = sample();
    handle_key(Key::Char('s'), &mut app, None);
    assert!(app.should_quit && app.save_proposed_changelog);
    let mut app = sample();
    handle_key(Key::Esc, &mut app, None);
    assert!(app.should_quit);
}

#[test]
fn typing_a_component() {
    let mut app = sample();
    app.input_mode = InputMode::AddComponent;
    for c in [' ', 'd', '/', 'o', '.', 'c', 's', 'x'] {
        assert_eq!(handle_key(Key::Char(c), &mut app, None), None);
    }
    assert_eq!(app.input_buffer, " docsx");
    handle_key(Key::Backspace, &mut app, None);
    assert_eq!(app.input_buffer, " docs");
    handle_key(Key::Char('q'), &mut app, None);
    assert!(!app.should_quit);
    handle_key(Key::Backspace, &mut app, None);
    assert_eq!(handle_key(Key::Enter, &mut app, None), Some("docs".to_owned()));
    assert_eq!(app.input_mode, InputMode::Normal);
    assert_eq!(app.input_buffer, "");
}

#[test]
fn blank_or_cancelled_components_are_not_submitted() {
    let mut app = sample();
    app.input_mode = InputMode::AddComponent;
    handle_key(Key::Char(' '), &mut app, None);
    assert_eq!(handle_key(Key::Enter, &mut app, None), None);
    assert_eq!(app.input_mode, InputMode::Normal);
    app.input_mode = InputMode::AddComponent;
    handle_key(Key::Char('x'), &mut app, None);
    assert_eq!(handle_key(Key::Esc, &mut app, None), None);
    assert_eq!(app.input_mode, InputMode::Normal);
    assert_eq!(app.input_buffer, "");
    assert!(!app.should_quit);
}

#[test]
fn reload_starts_over() {
    let mut app = sample();
    app.next();
    app.offset = 2;
    app.diff_scroll = 7;
    app.reload(vec![commit("z", None, &[("z.rs", 1)])]);
    assert_eq!(app.entries.len(), 2);
    assert_eq!(app.selected, 1);
    assert_eq!(app.offset, 0);
    assert_eq!(app.diff_scroll, 0);
    assert_eq!(app.revision, "v1");
}
