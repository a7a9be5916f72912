use fuzzit::diff::{
    action, line_kind, styled_lines, Action, App, FocusedWindow, Key, LineKind, NOTHING_SELECTED,
};
use fuzzit::git_data::GitData;
use fuzzit::status::RepoState;

fn items(n: usize) -> Vec<(String, GitData)> {
    (0..n)
        .map(|i| {
            (
                format!("repo-{}", i),
                GitData { status: "nothing to commit".to_string(), diff: "a\nb\nc\n".repeat(i) },
            )
        })
        .collect()
}

fn kind(line: &str) -> LineKind {
    line_kind(&line.chars().collect::<Vec<char>>())
}

#[test]
fn keys_and_what_they_ask_for() {
    assert_eq!(action(Key::Char('q')), Action::Quit);
    assert_eq!(action(Key::Esc), Action::Quit);
    assert_eq!(action(Key::Char('j')), Action::SelectNext);
    assert_eq!(action(Key::Down), Action::SelectNext);
    assert_eq!(action(Key::Char('k')), Action::SelectPrevious);
    assert_eq!(action(Key::Up), Action::SelectPrevious);
    assert_eq!(action(Key::Char('h')), Action::HoverPathList);
    assert_eq!(action(Key::Left), Action::HoverPathList);
    assert_eq!(action(Key::Char('l')), Action::HoverDiffPreview);
    assert_eq!(action(Key::Right), Action::HoverDiffPreview);
    assert_eq!(action(Key::Char('g')), Action::SelectFirst);
    assert_eq!(action(Key::PageUp), Action::SelectFirst);
    assert_eq!(action(Key::Char('G')), Action::SelectLast);
    assert_eq!(action(Key::PageDown), Action::SelectLast);
    assert_eq!(action(Key::Char('x')), Action::Nothing);
    assert_eq!(action(Key::Char('Q')), Action::Nothing);
    assert_eq!(action(Key::Other), Action::Nothing);
}

#[test]
fn diff_lines_are_told_apart() {
    assert_eq!(kind("+added"), LineKind::Added);
    assert_eq!(kind("+++ b/x"), LineKind::Added);
    assert_eq!(kind("-removed"), LineKind::Removed);
    assert_eq!(kind("@@ -1,2 +1,3 @@"), LineKind::Hunk);
    assert_eq!(kind("diff --git a/x b/x"), LineKind::Header);
    assert_eq!(kind("index 83db48f..bf12a3c 100644"), LineKind::Header);
    assert_eq!(kind("diff -r"), LineKind::Plain);
    assert_eq!(kind("inde"), LineKind::Plain);
    assert_eq!(kind(" context"), LineKind::Plain);
    assert_eq!(kind(""), LineKind::Plain);
}

#[test]
fn styled_lines_follow_the_text() {
    let out = styled_lines("diff --git a b\n@@ x\n+new\r\n-old\n same");
    let expected = vec![
        ("diff --git a b".to_string(), LineKind::Header),
        ("@@ x".to_string(), LineKind::Hunk),
        ("+new".to_string(), LineKind::Added),
        ("-old".to_string(), LineKind::Removed),
        (" same".to_string(), LineKind::Plain),
    ];
    assert_eq!(out, expected);
    assert_eq!(styled_lines(""), Vec::<(String, LineKind)>::new());
}

#[test]
fn new_browser_selects_the_first() {
    let app = App::new("~/code".to_string(), items(3));
    assert_eq!(app.selected(), Some(0));
    assert_eq!(app.diff_scroll(), 0);
    assert_eq!(app.max_diff_scroll(), 0);
    assert_eq!(app.focused_window(), FocusedWindow::PathList);
    assert_eq!(app.base_path(), "~/code");
    assert_eq!(app.items().len(), 3);
}

#[test]
fn list_moves_the_selection() {
    let mut app = App::new("b".to_string(), items(3));
    app.select_next();
    assert_eq!(app.selected(), Some(1));
    app.select_next();
    assert_eq!(app.selected(), Some(2));
    app.select_previous();
    assert_eq!(app.selected(), Some(1));
    app.select_first();
    assert_eq!(app.selected(), Some(0));
    app.select_previous();
    assert_eq!(app.selected(), Some(0));
    app.select_last();
    assert_eq!(app.selected(), Some(usize::MAX));
    app.select_next();
    assert_eq!(app.selected(), Some(usize::MAX));
}

#[test]
fn selection_from_nothing() {
    let mut app = App::new("b".to_string(), items(2));
    app.list_state().select(None);
    assert_eq!(app.selected(), None);
    app.select_next();
    assert_eq!(app.selected(), Some(0));
    app.list_state().select(None);
    app.select_previous();
    assert_eq!(app.selected(), Some(usize::MAX));
}

#[test]
fn diff_scrolls_when_it_has_the_focus() {
    let mut app = App::new("b".to_string(), items(3));
    app.select_next();
    app.hover_diff_preview();
    assert_eq!(app.focused_window(), FocusedWindow::DiffPreview);
    app.select_next();
    app.select_next();
    assert_eq!(app.diff_scroll(), 2);
    assert_eq!(app.selected(), Some(1));
    app.select_previous();
    assert_eq!(app.diff_scroll(), 1);
    app.select_first();
    assert_eq!(app.diff_scroll(), 0);
    app.select_previous();
    assert_eq!(app.diff_scroll(), 0);
    assert_eq!(app.diff_preview(), "a\nb\nc\n");
    assert_eq!(app.max_diff_scroll(), 3);
    app.select_last();
    assert_eq!(app.diff_scroll(), 3);
    app.hover_path_list();
    app.select_next();
    assert_eq!(app.diff_scroll(), 0);
    assert_eq!(app.selected(), Some(2));
}

#[test]
fn scroll_stops_at_its_bounds() {
    let mut app = App::new("b".to_string(), items(1));
    app.hover_diff_preview();
    for _ in 0..70000 {
        app.select_next();
    }
    assert_eq!(app.diff_scroll(), u16::MAX);
}

#[test]
fn diff_preview_of_the_selection() {
    let mut app = App::new("b".to_string(), items(3));
    assert_eq!(app.diff_preview(), "");
    assert_eq!(app.max_diff_scroll(), 0);
    app.select_next();
    app.select_next();
    assert_eq!(app.diff_preview(), "a\nb\nc\na\nb\nc\n");
    assert_eq!(app.max_diff_scroll(), 6);
    app.select_last();
    assert_eq!(app.diff_preview(), NOTHING_SELECTED);
    assert_eq!(app.diff_preview(), "Nothing selected...");
    assert_eq!(app.max_diff_scroll(), 6);
    let mut empty = App::new("b".to_string(), vec![]);
    assert_eq!(empty.diff_preview(), "Nothing selected...");
}

#[test]
fn line_count_is_cut_to_sixteen_bits() {
    let long = GitData { status: String::new(), diff: "x\n".repeat(65536 + 5) };
    let mut app = App::new("b".to_string(), vec![("r".to_string(), long)]);
    app.diff_preview();
    assert_eq!(app.max_diff_scroll(), 5);
}

#[test]
fn keys_drive_the_browser() {
    let mut app = App::new("b".to_string(), items(3));
    assert!(app.handle_key(Key::Char('j')));
    assert_eq!(app.selected(), Some(1));
    assert!(app.handle_key(Key::Right));
    assert_eq!(app.focused_window(), FocusedWindow::DiffPreview);
    assert!(app.handle_key(Key::Down));
    assert_eq!(app.diff_scroll(), 1);
    assert!(app.handle_key(Key::Char('h')));
    assert!(app.handle_key(Key::Char('G')));
    assert_eq!(app.selected(), Some(usize::MAX));
    assert!(app.handle_key(Key::PageUp));
    assert_eq!(app.selected(), Some(0));
    assert!(app.handle_key(Key::Other));
    assert!(app.handle_key(Key::Char('z')));
    assert_eq!(app.selected(), Some(0));
    assert!(!app.handle_key(Key::Char('q')));
    assert!(!app.handle_key(Key::Esc));
    assert_eq!(app.selected(), Some(0));
}

#[test]
fn list_entries_name_and_state() {
    let data = vec![
        ("a".to_string(), GitData { status: "nothing to commit".to_string(), diff: "d".to_string() }),
        ("b".to_string(), GitData { status: "Changes to be committed".to_string(), diff: String::new() }),
    ];
    let app = App::new("b".to_string(), data);
    assert_eq!(
        app.list_entries(),
        vec![("a .. ".to_string(), RepoState::Clean), ("b .. ".to_string(), RepoState::NotCommitted)]
    );
}
