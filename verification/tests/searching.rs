use cloister::app::CloisterApp;
use cloister::tab::Tab;
use cloister::text::{find_from, find_matches, range_replaceable, replace_range};

fn app_with(contents: &[&str]) -> CloisterApp {
    let tabs: Vec<Tab> = contents
        .iter()
        .map(|c| {
            let mut t = Tab::new("doc");
            t.content = c.to_string();
            t
        })
        .collect();
    CloisterApp::from_loaded(Some(tabs))
}

#[test]
fn find_from_finds_first_occurrence() {
    assert_eq!(find_from(b"abcabc", b"bc", 0), Some(1));
    assert_eq!(find_from(b"abcabc", b"bc", 2), Some(4));
    assert_eq!(find_from(b"abcabc", b"bc", 5), None);
    assert_eq!(find_from(b"abc", b"", 2), Some(2));
    assert_eq!(find_from(b"ab", b"abc", 0), None);
}

#[test]
fn find_matches_does_not_overlap() {
    assert_eq!(find_matches("aaaa", "aa", false), vec![0, 2]);
    assert_eq!(find_matches("abc", "", false), Vec::<usize>::new());
    assert_eq!(find_matches("héllo wörld", "wörld", false), vec![7]);
}

#[test]
fn whole_word_filter() {
    assert_eq!(find_matches("cat concat cat.", "cat", false), vec![0, 7, 11]);
    assert_eq!(find_matches("cat concat cat.", "cat", true), vec![0, 11]);
    assert_eq!(find_matches("cats cat", "cat", true), vec![5]);
    assert_eq!(find_matches("ümlaut x", "x", false), vec![8]);
}

#[test]
fn whole_word_uses_unicode_letters() {
    // "t" sits at byte 2 of "été"; the test reads the character at index 1,
    // which is the alphabetic 't' itself, so the match is not kept.
    assert_eq!(find_matches("été", "t", true), Vec::<usize>::new());
    assert_eq!(find_matches("été", "t", false), vec![2]);
    assert_eq!(find_matches("a-b", "b", true), vec![2]);
}

#[test]
fn find_is_case_insensitive_by_default() {
    let mut app = app_with(&["Hello hello HELLO", "nothing", "say hello"]);
    app.search_query = "hello".to_string();
    assert!(app.try_run_find());
    assert_eq!(app.search_results, vec![(0, 0), (0, 6), (0, 12), (2, 4)]);
    assert_eq!(app.current_match, Some(0));
}

#[test]
fn upper_case_query_matches_lower_case_text() {
    let mut app = app_with(&["hello"]);
    app.search_query = "HELLO".to_string();
    app.run_find();
    assert_eq!(app.search_results, vec![(0, 0)]);
}

#[test]
fn case_sensitive_find() {
    let mut app = app_with(&["Hello hello HELLO"]);
    app.search_query = "hello".to_string();
    app.case_sensitive = true;
    app.run_find();
    assert_eq!(app.search_results, vec![(0, 6)]);
}

#[test]
fn empty_query_finds_nothing() {
    let mut app = app_with(&["abc"]);
    app.search_results = vec![(0, 1)];
    app.current_match = Some(0);
    app.run_find();
    assert!(app.search_results.is_empty());
    assert_eq!(app.current_match, None);
}

#[test]
fn find_without_match_clears_current() {
    let mut app = app_with(&["abc"]);
    app.search_query = "zzz".to_string();
    app.current_match = Some(3);
    app.run_find();
    assert!(app.search_results.is_empty());
    assert_eq!(app.current_match, None);
}

#[test]
fn whole_word_find_that_would_read_past_the_text_is_refused() {
    // Four characters but six bytes: the match of "a" sits at byte 5, and the
    // whole-word test reads the character at index 4, which does not exist.
    let mut app = app_with(&["éé a"]);
    app.search_query = "a".to_string();
    app.whole_word = true;
    app.search_results = vec![(9, 9)];
    assert!(!app.find_is_defined());
    assert!(!app.try_run_find());
    assert_eq!(app.search_results, vec![(9, 9)]);
    app.whole_word = false;
    assert!(app.try_run_find());
    assert_eq!(app.search_results, vec![(0, 5)]);
}

#[test]
fn replace_replaces_current_match() {
    let mut app = app_with(&["hello world"]);
    app.search_query = "world".to_string();
    app.replace_query = "there".to_string();
    app.run_find();
    assert!(app.can_replace_current());
    app.replace_current();
    assert_eq!(app.tabs[0].content, "hello there");
    assert!(app.tabs[0].dirty);
    assert_eq!(app.search_results, vec![(0, 6)]);
}

#[test]
fn replace_without_current_match_does_nothing() {
    let mut app = app_with(&["hello"]);
    app.replace_query = "x".to_string();
    app.replace_current();
    assert_eq!(app.tabs[0].content, "hello");
    assert!(!app.tabs[0].dirty);
}

#[test]
fn replace_on_a_stale_match_is_refused() {
    let mut app = app_with(&["héllo"]);
    app.search_query = "l".to_string();
    app.search_results = vec![(0, 2)];
    app.current_match = Some(0);
    assert!(!app.can_replace_current());
    app.search_results = vec![(0, 40)];
    assert!(!app.can_replace_current());
    app.search_results = vec![(4, 0)];
    assert!(app.can_replace_current());
}

#[test]
fn replace_all_replaces_every_match() {
    let mut app = app_with(&["a b a", "xa"]);
    app.search_query = "a".to_string();
    app.replace_query = "xyz".to_string();
    app.run_find();
    assert!(app.can_replace_all());
    app.replace_all();
    assert_eq!(app.tabs[0].content, "xyz b xyz");
    assert_eq!(app.tabs[1].content, "xxyz");
    assert!(app.tabs[0].dirty && app.tabs[1].dirty);
}

#[test]
fn replace_all_ignoring_case() {
    let mut app = app_with(&["Hello HELLO"]);
    app.search_query = "hello".to_string();
    app.replace_query = "bye".to_string();
    app.run_find();
    app.replace_all();
    assert_eq!(app.tabs[0].content, "bye bye");
}

#[test]
fn replace_all_skips_closed_tabs_and_refuses_bad_ranges() {
    let mut app = app_with(&["abc"]);
    app.search_query = "b".to_string();
    app.replace_query = "B".to_string();
    app.search_results = vec![(0, 1), (3, 0)];
    assert!(app.can_replace_all());
    app.replace_all();
    assert_eq!(app.tabs[0].content, "aBc");
    app.search_results = vec![(0, 1), (0, 3)];
    assert!(!app.can_replace_all());
}

#[test]
fn next_and_previous_wrap_and_switch_tabs() {
    let mut app = app_with(&["x", "x x"]);
    app.search_query = "x".to_string();
    app.run_find();
    assert_eq!(app.search_results, vec![(0, 0), (1, 0), (1, 2)]);
    app.next_match();
    assert_eq!(app.current_match, Some(1));
    assert_eq!(app.active_tab, 1);
    app.next_match();
    app.next_match();
    assert_eq!(app.current_match, Some(0));
    assert_eq!(app.active_tab, 0);
    app.previous_match();
    assert_eq!(app.current_match, Some(2));
    assert_eq!(app.active_tab, 1);
    app.next_match();
    assert_eq!(app.current_match, Some(0));
}

#[test]
fn highlights_cover_matches_in_active_tab() {
    let mut app = app_with(&["ab ab", "ab"]);
    app.search_query = "ab".to_string();
    app.run_find();
    assert_eq!(app.highlight_ranges(), vec![(0, 2), (3, 5)]);
    app.select_tab(1);
    assert_eq!(app.highlight_ranges(), vec![(0, 2)]);
    app.select_tab(9);
    assert!(app.highlight_ranges().is_empty());
}

#[test]
fn replace_range_splices_bytes() {
    let s = "héllo".to_string();
    assert!(range_replaceable(&s, 1, 2));
    assert_eq!(replace_range(&s, 1, 3, "e"), "hello");
    assert!(!range_replaceable(&s, 2, 1));
    assert!(!range_replaceable(&s, 5, 2));
    assert_eq!(replace_range(&s, 6, 6, "!"), "héllo!");
}

#[test]
fn replace_all_without_results_changes_nothing() {
    let mut app = app_with(&["keep me"]);
    app.search_query = "zzz".to_string();
    app.replace_query = "x".to_string();
    app.run_find();
    assert!(app.can_replace_all());
    app.replace_all();
    assert_eq!(app.tabs[0].content, "keep me");
    assert!(!app.tabs[0].dirty);
}

#[test]
fn replace_all_after_case_sensitive_find_handles_multibyte_text() {
    let mut app = app_with(&["ünï ü ünï", "ünïünï"]);
    app.case_sensitive = true;
    app.search_query = "ünï".to_string();
    app.replace_query = "é".to_string();
    app.run_find();
    assert_eq!(app.search_results, vec![(0, 0), (0, 9), (1, 0), (1, 5)]);
    assert!(app.can_replace_all());
    app.replace_all();
    assert_eq!(app.tabs[0].content, "é ü é");
    assert_eq!(app.tabs[1].content, "éé");
}

#[test]
fn every_reported_match_is_the_query() {
    let texts = ["abracadabra", "cadabra", "nothing"];
    let mut app = app_with(&texts);
    app.case_sensitive = true;
    app.search_query = "abra".to_string();
    app.run_find();
    assert_eq!(app.search_results, vec![(0, 0), (0, 7), (1, 3)]);
    for (t, p) in &app.search_results {
        assert_eq!(&texts[*t][*p..*p + 4], "abra");
    }
}
