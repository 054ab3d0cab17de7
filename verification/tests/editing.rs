use cloister::app::CloisterApp;
use cloister::tab::Tab;
use cloister::SavePlan;

fn app_with(contents: &[&str]) -> CloisterApp {
    let tabs: Vec<Tab> = contents
        .iter()
        .map(|c| {
            let mut t = Tab::new("doc");
            t.content = c.to_string();
            t
        })
        .collect();
    CloisterApp::from_loaded(Some(tabs))
}

#[test]
fn new_tab_is_empty_clean_and_v4() {
    let t = Tab::new("notes");
    assert_eq!(t.title, "notes");
    assert_eq!(t.content, "");
    assert!(!t.dirty);
    assert!(t.file_path.is_none());
    assert_eq!((t.id >> 76) & 0xf, 4);
    assert_eq!((t.id >> 62) & 0x3, 2);
    let u = Tab::new("notes");
    assert_ne!(t.id, u.id);
}

#[test]
fn startup_without_autosave_has_one_new_tab() {
    let app = CloisterApp::from_loaded(None);
    assert_eq!(app.tabs.len(), 1);
    assert_eq!(app.tabs[0].title, "New cloistered file");
    assert_eq!(app.tabs[0].content, "");
    assert_eq!(app.active_tab, 0);
    assert!(app.undo_history.is_empty() && app.redo_history.is_empty());
    assert!(app.search_results.is_empty());
    assert_eq!(app.current_match, None);
    assert!(!app.show_search && !app.show_replace && !app.case_sensitive && !app.whole_word);
}

#[test]
fn startup_with_autosave_keeps_its_tabs() {
    let app = app_with(&["one", "two"]);
    assert_eq!(app.tabs.len(), 2);
    assert_eq!(app.tabs[1].content, "two");
    assert_eq!(app.active_tab, 0);
    let empty = CloisterApp::from_loaded(Some(Vec::new()));
    assert!(empty.tabs.is_empty());
}

#[test]
fn file_new_appends_and_activates() {
    let mut app = app_with(&["one"]);
    app.new_tab();
    assert_eq!(app.tabs.len(), 2);
    assert_eq!(app.active_tab, 1);
    assert_eq!(app.tabs[1].title, "New cloistered file");
}

#[test]
fn open_file_remembers_path_and_recent_does_not() {
    let mut app = app_with(&["one"]);
    app.open_file("a.txt".to_string(), "alpha".to_string(), "/tmp/a.txt".to_string());
    assert_eq!(app.active_tab, 1);
    assert_eq!(app.tabs[1].title, "a.txt");
    assert_eq!(app.tabs[1].content, "alpha");
    assert_eq!(app.tabs[1].file_path.as_deref(), Some("/tmp/a.txt"));
    assert!(!app.tabs[1].dirty);
    assert_eq!(app.recent_files, vec!["/tmp/a.txt".to_string()]);
    app.open_recent_file("a.txt".to_string(), "alpha".to_string(), "/tmp/a.txt".to_string());
    assert_eq!(app.tabs.len(), 3);
    assert_eq!(app.active_tab, 2);
    assert_eq!(app.recent_files.len(), 1);
}

#[test]
fn save_plans_follow_the_active_tab() {
    let mut app = app_with(&["one"]);
    assert!(matches!(app.save_plan(), SavePlan::AskForPath));
    app.tabs[0].dirty = true;
    app.mark_active_saved_as("/tmp/one.txt".to_string());
    assert!(!app.tabs[0].dirty);
    assert_eq!(app.tabs[0].file_path.as_deref(), Some("/tmp/one.txt"));
    assert_eq!(app.recent_files, vec!["/tmp/one.txt".to_string()]);
    match app.save_plan() {
        SavePlan::WriteTo(p) => assert_eq!(p, "/tmp/one.txt"),
        _ => panic!("expected a path to write to"),
    }
    app.tabs[0].dirty = true;
    app.mark_active_saved();
    assert!(!app.tabs[0].dirty);
    app.active_tab = 5;
    assert!(matches!(app.save_plan(), SavePlan::NoTab));
    app.mark_active_saved_as("/tmp/x".to_string());
    assert_eq!(app.recent_files.len(), 1);
}

#[test]
fn save_all_targets_tabs_with_paths() {
    let mut app = app_with(&["a", "b", "c"]);
    app.tabs[0].file_path = Some("/a".to_string());
    app.tabs[2].file_path = Some("/c".to_string());
    assert_eq!(app.tabs_with_paths(), vec![0, 2]);
    app.tabs[2].dirty = true;
    app.mark_tab_saved(2);
    assert!(!app.tabs[2].dirty);
    app.mark_tab_saved(7);
    assert_eq!(app.tabs.len(), 3);
}

#[test]
fn editor_marks_active_tab_dirty() {
    let mut app = app_with(&["a", "b"]);
    app.active_tab = 1;
    app.mark_active_dirty();
    assert!(app.tabs[1].dirty);
    assert!(!app.tabs[0].dirty);
}

#[test]
fn undo_and_redo_swap_contents() {
    let mut app = app_with(&["current"]);
    app.undo_history.push_back("older".to_string());
    app.undo();
    assert_eq!(app.tabs[0].content, "older");
    assert!(app.undo_history.is_empty());
    assert_eq!(app.redo_history.back().map(|s| s.as_str()), Some("current"));
    app.redo();
    assert_eq!(app.tabs[0].content, "current");
    assert_eq!(app.undo_history.back().map(|s| s.as_str()), Some("older"));
    assert!(app.redo_history.is_empty());
}

#[test]
fn undo_with_empty_history_changes_nothing() {
    let mut app = app_with(&["text"]);
    app.undo();
    app.redo();
    assert_eq!(app.tabs[0].content, "text");
    assert!(app.undo_history.is_empty() && app.redo_history.is_empty());
}

#[test]
fn redo_then_undo_restores_state() {
    let mut app = app_with(&["now"]);
    app.redo_history.push_back("later".to_string());
    app.undo_history.push_back("before".to_string());
    app.redo();
    app.undo();
    assert_eq!(app.tabs[0].content, "now");
    assert_eq!(app.redo_history.iter().cloned().collect::<Vec<_>>(), vec!["later".to_string()]);
    assert_eq!(app.undo_history.iter().cloned().collect::<Vec<_>>(), vec!["before".to_string()]);
}

#[test]
fn cut_copy_paste() {
    let mut app = app_with(&["hello"]);
    app.copy();
    assert_eq!(app.clipboard, "hello");
    assert_eq!(app.tabs[0].content, "hello");
    app.cut();
    assert_eq!(app.clipboard, "hello");
    assert_eq!(app.tabs[0].content, "");
    assert_eq!(app.undo_history.back().map(|s| s.as_str()), Some(""));
    app.paste();
    assert_eq!(app.tabs[0].content, "hello");
    assert_eq!(app.undo_history.back().map(|s| s.as_str()), Some("hello"));
    app.paste();
    assert_eq!(app.tabs[0].content, "hellohello");
    assert_eq!(app.undo_history.len(), 3);
}

#[test]
fn edit_menu_needs_an_active_tab() {
    let mut app = app_with(&["x"]);
    app.active_tab = 3;
    app.clipboard = "clip".to_string();
    app.cut();
    app.paste();
    app.copy();
    app.open_find();
    assert_eq!(app.clipboard, "clip");
    assert_eq!(app.tabs[0].content, "x");
    assert!(app.undo_history.is_empty());
    assert!(!app.show_search);
}

#[test]
fn find_and_replace_windows_open_and_close() {
    let mut app = app_with(&["x"]);
    app.open_replace();
    assert!(app.show_search && app.show_replace);
    app.open_find();
    assert!(app.show_search && !app.show_replace);
    app.close_search();
    assert!(!app.show_search && !app.show_replace);
}

#[test]
fn closing_tabs_moves_the_active_index() {
    let mut app = app_with(&["a", "b", "c"]);
    app.select_tab(2);
    assert_eq!(app.active_tab, 2);
    app.close_tab(2);
    assert_eq!(app.tabs.len(), 2);
    assert_eq!(app.active_tab, 1);
    app.close_tab(0);
    assert_eq!(app.tabs[0].content, "b");
    assert_eq!(app.active_tab, 0);
    app.close_tab(0);
    assert!(app.tabs.is_empty());
    assert_eq!(app.active_tab, 0);
}

#[test]
fn closing_an_earlier_tab_keeps_the_index() {
    let mut app = app_with(&["a", "b", "c"]);
    app.select_tab(1);
    app.close_tab(0);
    assert_eq!(app.active_tab, 1);
    assert_eq!(app.tabs[1].content, "c");
}
