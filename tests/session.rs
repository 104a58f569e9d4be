use rust_browser::session::{normalize_url, BrowserState, NavigationHistory, Tab};

#[test]
fn history_back_and_forward() {
    let mut h = NavigationHistory::new();
    assert!(!h.can_go_back());
    assert_eq!(h.go_back(), None);
    h.push("a".to_string());
    assert!(!h.can_go_back());
    h.push("b".to_string());
    h.push("c".to_string());
    assert_eq!(h.back_stack, vec!["a".to_string(), "b".to_string()]);
    assert_eq!(h.go_back(), Some("b".to_string()));
    assert_eq!(h.current, "b");
    assert!(h.can_go_forward());
    assert_eq!(h.go_forward(), Some("c".to_string()));
    assert_eq!(h.go_forward(), None);
    h.go_back();
    h.push("d".to_string());
    assert!(!h.can_go_forward());
    assert_eq!(h.back_stack, vec!["a".to_string(), "b".to_string()]);
}

#[test]
fn url_scheme_added_when_missing() {
    assert_eq!(normalize_url("example.com"), "https://example.com");
    assert_eq!(normalize_url("http://example.com"), "http://example.com");
    assert_eq!(normalize_url("https://x.org/a"), "https://x.org/a");
    assert_eq!(normalize_url(""), "https://");
}

#[test]
fn tabs_open_and_close() {
    let mut state = BrowserState::new();
    assert_eq!(state.tabs.len(), 1);
    assert_eq!(state.tabs[0].title, "New Tab");
    state.new_tab();
    state.new_tab();
    assert_eq!(state.tabs.len(), 3);
    assert_eq!(state.current_tab, 2);
    assert_eq!(state.tabs[2].id, 2);
    state.close_tab(2);
    assert_eq!(state.tabs.len(), 2);
    assert_eq!(state.current_tab, 1);
    state.close_tab(0);
    assert_eq!(state.tabs.len(), 1);
    assert_eq!(state.tabs[0].id, 1);
    state.close_tab(0);
    assert_eq!(state.tabs.len(), 1);
    let t = Tab::new(9);
    assert_eq!(t.id, 9);
    assert_eq!(t.url, "");
}

#[test]
fn loads_and_navigation() {
    let mut state = BrowserState::new();
    state.record_load("https://a", "<title> A </title>".to_string());
    assert_eq!(state.tabs[0].title, "A");
    state.record_load("https://b", "no title".to_string());
    assert_eq!(state.tabs[0].title, "Untitled");
    assert_eq!(state.tabs[0].url, "https://b");
    assert_eq!(state.navigate_back(), Some("https://a".to_string()));
    assert_eq!(state.url_bar, "https://a");
    assert_eq!(state.navigate_back(), None);
    assert_eq!(state.navigate_forward(), Some("https://b".to_string()));
    assert_eq!(state.url_bar, "https://b");
}
