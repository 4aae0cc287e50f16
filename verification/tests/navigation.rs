use fsz::{Action, App, FileInfo, Key, Scan, SizeMode};

fn comps(path: &str) -> Vec<Vec<u8>> {
    if path.is_empty() {
        return Vec::new();
    }
    path.split('/').map(|c| c.as_bytes().to_vec()).collect()
}

fn file(ino: u64, size: u64) -> Option<FileInfo> {
    Some(FileInfo { dev: 1, ino, apparent: size, allocated: size * 2 })
}

/// root/{big/{p (300), q (100)}, mid (200), small (50)}
fn app() -> App {
    let mut scan = Scan::new(b"root".to_vec(), SizeMode::Apparent);
    scan.record(&comps("small"), file(1, 50));
    scan.record(&comps("mid"), file(2, 200));
    scan.record(&comps("big/q"), file(3, 100));
    scan.record(&comps("big/p"), file(4, 300));
    App::new(scan.finish())
}

fn name(app: &App, idx: usize) -> String {
    String::from_utf8(app.tree().nodes()[idx].name.clone()).unwrap()
}

fn listed(app: &App) -> Vec<String> {
    app.children().iter().map(|&c| name(app, c)).collect()
}

fn selected_name(app: &App) -> Option<String> {
    app.selected_child().map(|c| name(app, c))
}

#[test]
fn opens_on_root_first_row() {
    let app = app();
    assert_eq!(app.current(), 0);
    assert_eq!(listed(&app), vec!["big", "mid", "small"]);
    assert_eq!(app.selected(), Some(0));
    assert!(!app.quit() && !app.confirm_quit() && !app.confirm_delete());
    assert!(app.error().is_none());
}

#[test]
fn cursor_moves_and_stays_inside_the_list() {
    let mut app = app();
    assert_eq!(app.on_key(Key::Down, false), Action::Nothing);
    assert_eq!(app.selected(), Some(1));
    app.on_key(Key::Char('j'), false);
    app.on_key(Key::Char('j'), false);
    assert_eq!(app.selected(), Some(2));
    app.on_key(Key::Home, false);
    assert_eq!(app.selected(), Some(0));
    app.on_key(Key::Up, false);
    assert_eq!(app.selected(), Some(0));
    app.on_key(Key::End, false);
    assert_eq!(app.selected(), Some(2));
    app.on_key(Key::Char('k'), false);
    assert_eq!(app.selected(), Some(1));
}

#[test]
fn enter_descends_into_directories_only() {
    let mut app = app();
    app.on_key(Key::Down, false);
    app.on_key(Key::Enter, false);
    assert_eq!(app.current(), 0, "a file is not entered");
    app.on_key(Key::Home, false);
    app.on_key(Key::Right, false);
    assert_eq!(name(&app, app.current()), "big");
    assert_eq!(listed(&app), vec!["p", "q"]);
    assert_eq!(app.selected(), Some(0));
}

#[test]
fn going_up_highlights_the_folder_left() {
    let mut app = app();
    app.on_key(Key::Char('l'), false);
    app.on_key(Key::Char('h'), false);
    assert_eq!(app.current(), 0);
    assert_eq!(selected_name(&app).as_deref(), Some("big"));
    app.on_key(Key::Backspace, false);
    assert_eq!(app.current(), 0, "the root has no parent");
}

#[test]
fn quitting_needs_a_yes() {
    let mut app = app();
    app.on_key(Key::Char('q'), false);
    assert!(app.confirm_quit());
    app.on_key(Key::Char('n'), false);
    assert!(!app.confirm_quit() && !app.quit());
    app.on_key(Key::Esc, false);
    app.on_key(Key::Esc, false);
    assert!(!app.quit(), "the key that opened the prompt does not confirm it");
    app.on_key(Key::Esc, false);
    app.on_key(Key::Char('Y'), false);
    assert!(app.quit());
}

#[test]
fn delete_needs_ctrl_d_and_a_yes() {
    let mut app = app();
    assert_eq!(app.on_key(Key::Char('d'), false), Action::Nothing);
    assert!(!app.confirm_delete());
    app.on_key(Key::Down, false);
    assert_eq!(app.on_key(Key::Char('d'), true), Action::Nothing);
    assert!(app.confirm_delete());
    assert_eq!(app.on_key(Key::Char('x'), false), Action::Nothing);
    assert!(!app.confirm_delete());
    app.on_key(Key::Char('d'), true);
    let mid = app.selected_child().unwrap();
    assert_eq!(app.on_key(Key::Enter, false), Action::Delete(mid));
    assert!(!app.confirm_delete());
}

#[test]
fn successful_delete_updates_list_and_totals() {
    let mut app = app();
    app.on_key(Key::End, false);
    app.on_key(Key::Char('d'), true);
    assert!(matches!(app.on_key(Key::Char('y'), false), Action::Delete(_)));
    app.deleted(Ok(()));
    assert_eq!(listed(&app), vec!["big", "mid"]);
    assert_eq!(app.selected(), Some(1), "the cursor falls back to the last row");
    assert_eq!(app.tree().nodes()[0].total_size, 600);
    assert!(app.error().is_none());
}

#[test]
fn failed_delete_keeps_everything_and_reports() {
    let mut app = app();
    app.on_key(Key::Char('d'), true);
    app.on_key(Key::Char('y'), false);
    app.deleted(Err("permission denied".to_string()));
    assert_eq!(listed(&app), vec!["big", "mid", "small"]);
    assert_eq!(app.tree().nodes()[0].total_size, 650);
    assert_eq!(app.error().as_deref(), Some("Delete failed: permission denied"));
}

#[test]
fn toggling_size_keeps_the_highlighted_entry() {
    let mut app = app();
    app.on_key(Key::Down, false);
    assert_eq!(selected_name(&app).as_deref(), Some("mid"));
    app.on_key(Key::Char('a'), false);
    assert_eq!(app.tree().mode(), SizeMode::Allocated);
    assert_eq!(app.tree().nodes()[0].total_size, 1300);
    assert_eq!(selected_name(&app).as_deref(), Some("mid"));
}

#[test]
fn empty_directory_has_no_cursor() {
    let mut scan = Scan::new(b"root".to_vec(), SizeMode::Allocated);
    scan.record(&comps("only"), file(1, 10));
    let mut app = App::new(scan.finish());
    app.on_key(Key::Char('d'), true);
    app.on_key(Key::Char('y'), false);
    app.deleted(Ok(()));
    assert!(app.children().is_empty());
    assert_eq!(app.selected(), None);
    app.on_key(Key::Down, false);
    assert_eq!(app.selected(), None);
    assert_eq!(app.on_key(Key::Char('d'), true), Action::Nothing);
    assert!(!app.confirm_delete());
}
