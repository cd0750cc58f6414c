use petal::ui::omnibox::{minimal_encode, resolve_navigation_target, OmniboxState};

const DDG: &str = "https://duckduckgo.com/?q={}";

#[test]
fn new_state_is_empty() {
    let s = OmniboxState::new();
    assert!(!s.is_focused);
    assert_eq!(s.input, "");
    assert_eq!(s.cursor_position, 0);
    assert!(!s.select_all_on_type);
    assert!(s.history.is_empty());
    assert_eq!(s.history_index, None);
}

#[test]
fn focus_selects_current_url() {
    let mut s = OmniboxState::new();
    s.focus("https://é.com");
    assert!(s.is_focused);
    assert_eq!(s.input, "https://é.com");
    assert_eq!(s.cursor_position, "https://é.com".len());
    assert!(s.select_all_on_type);
    s.defocus();
    assert!(!s.is_focused);
    assert!(!s.select_all_on_type);
    assert_eq!(s.input, "https://é.com");
}

#[test]
fn typing_after_focus_replaces_the_url() {
    let mut s = OmniboxState::new();
    s.focus("https://example.com");
    s.insert_char('r');
    assert_eq!(s.input, "r");
    assert_eq!(s.cursor_position, 1);
    assert!(!s.select_all_on_type);
    s.insert_char('ü');
    assert_eq!(s.input, "rü");
    assert_eq!(s.cursor_position, 3);
}

#[test]
fn insert_in_the_middle_of_multibyte_text() {
    let mut s = OmniboxState::new();
    s.input = String::from("héllo");
    s.cursor_position = 1;
    s.insert_char('ü');
    assert_eq!(s.input, "hüéllo");
    assert_eq!(s.cursor_position, 3);
    s.insert_char('€');
    assert_eq!(s.input, "hü€éllo");
    assert_eq!(s.cursor_position, 6);
}

#[test]
fn insert_past_the_end_does_nothing() {
    let mut s = OmniboxState::new();
    s.input = String::from("ab");
    s.cursor_position = 7;
    s.insert_char('x');
    assert_eq!(s.input, "ab");
    assert_eq!(s.cursor_position, 7);
}

#[test]
fn backspace_undoes_insert() {
    let mut s = OmniboxState::new();
    s.input = String::from("aéb");
    s.cursor_position = 3;
    s.insert_char('😀');
    assert_eq!(s.input, "aé😀b");
    assert_eq!(s.cursor_position, 7);
    s.backspace();
    assert_eq!(s.input, "aéb");
    assert_eq!(s.cursor_position, 3);
}

#[test]
fn backspace_removes_one_character() {
    let mut s = OmniboxState::new();
    s.input = String::from("aé");
    s.cursor_position = 3;
    s.backspace();
    assert_eq!(s.input, "a");
    assert_eq!(s.cursor_position, 1);
    s.backspace();
    assert_eq!(s.input, "");
    assert_eq!(s.cursor_position, 0);
    s.backspace();
    assert_eq!(s.input, "");
    assert_eq!(s.cursor_position, 0);
}

#[test]
fn backspace_with_selection_clears() {
    let mut s = OmniboxState::new();
    s.focus("abc");
    s.backspace();
    assert_eq!(s.input, "");
    assert_eq!(s.cursor_position, 0);
    assert!(!s.select_all_on_type);
}

#[test]
fn arrows_move_over_whole_characters() {
    let mut s = OmniboxState::new();
    s.input = String::from("aéb");
    s.cursor_position = 0;
    s.arrow_right();
    assert_eq!(s.cursor_position, 1);
    s.arrow_right();
    assert_eq!(s.cursor_position, 3);
    s.arrow_right();
    assert_eq!(s.cursor_position, 4);
    s.arrow_right();
    assert_eq!(s.cursor_position, 4);
    s.arrow_left();
    assert_eq!(s.cursor_position, 3);
    s.arrow_left();
    assert_eq!(s.cursor_position, 1);
    s.arrow_left();
    assert_eq!(s.cursor_position, 0);
    s.arrow_left();
    assert_eq!(s.cursor_position, 0);
}

#[test]
fn arrows_cancel_selection() {
    let mut s = OmniboxState::new();
    s.focus("ab");
    s.arrow_left();
    assert!(!s.select_all_on_type);
    assert_eq!(s.cursor_position, 1);
    s.insert_char('x');
    assert_eq!(s.input, "axb");
}

#[test]
fn history_navigation() {
    let mut s = OmniboxState::new();
    s.arrow_up();
    assert_eq!(s.history_index, None);
    s.push_history(String::from("a.com"));
    s.push_history(String::from("b.com"));
    assert_eq!(s.history.len(), 2);
    assert_eq!(s.history[0], "b.com");
    s.arrow_up();
    assert_eq!(s.history_index, Some(0));
    assert_eq!(s.input, "b.com");
    assert_eq!(s.cursor_position, 5);
    s.arrow_up();
    assert_eq!(s.history_index, Some(1));
    assert_eq!(s.input, "a.com");
    s.arrow_up();
    assert_eq!(s.history_index, Some(1));
    s.arrow_down();
    assert_eq!(s.history_index, Some(0));
    assert_eq!(s.input, "b.com");
    s.arrow_down();
    assert_eq!(s.history_index, None);
    assert_eq!(s.input, "");
    assert_eq!(s.cursor_position, 0);
    s.arrow_down();
    assert_eq!(s.history_index, None);
}

#[test]
fn history_skips_repeat_and_keeps_sixteen() {
    let mut s = OmniboxState::new();
    s.push_history(String::from("x"));
    s.push_history(String::from("x"));
    assert_eq!(s.history.len(), 1);
    for i in 0..20 {
        s.push_history(format!("site{}", i));
    }
    assert_eq!(s.history.len(), 16);
    assert_eq!(s.history[0], "site19");
    assert_eq!(s.history[15], "site4");
}

#[test]
fn minimal_encode_escapes_bytes() {
    assert_eq!(minimal_encode("a b/é"), "a%20b%2F%C3%A9");
    assert_eq!(minimal_encode("AZaz09-_.~"), "AZaz09-_.~");
    assert_eq!(minimal_encode("?&="), "%3F%26%3D");
    assert_eq!(minimal_encode(""), "");
}

#[test]
fn resolve_keeps_full_addresses() {
    assert_eq!(resolve_navigation_target("  https://x.com/a b ", DDG), "https://x.com/a b");
    assert_eq!(resolve_navigation_target("http://x", DDG), "http://x");
    assert_eq!(resolve_navigation_target("file:///tmp/a", DDG), "file:///tmp/a");
    assert_eq!(resolve_navigation_target("magma://settings", DDG), "magma://settings");
}

#[test]
fn resolve_completes_local_and_domains() {
    assert_eq!(resolve_navigation_target("localhost:8080", DDG), "http://localhost:8080");
    assert_eq!(resolve_navigation_target("127.0.0.1:3000/x", DDG), "http://127.0.0.1:3000/x");
    assert_eq!(resolve_navigation_target("example.com", DDG), "https://example.com");
    assert_eq!(resolve_navigation_target("\t rust-lang.org\n", DDG), "https://rust-lang.org");
}

#[test]
fn resolve_searches_everything_else() {
    assert_eq!(resolve_navigation_target("", DDG), "");
    assert_eq!(resolve_navigation_target("   ", DDG), "");
    assert_eq!(resolve_navigation_target("rust lang", DDG), "https://duckduckgo.com/?q=rust%20lang");
    assert_eq!(resolve_navigation_target("a.b c", DDG), "https://duckduckgo.com/?q=a.b%20c");
    assert_eq!(resolve_navigation_target("localhost", DDG), "https://duckduckgo.com/?q=localhost");
    assert_eq!(resolve_navigation_target("q", "s/{}/{}?{x}"), "s/q/q?{x}");
    assert_eq!(resolve_navigation_target("q", "{{}"), "{q");
    assert_eq!(resolve_navigation_target("ç", "x={}"), "x=%C3%A7");
}

#[test]
fn resolved_addresses_resolve_to_themselves() {
    for input in ["  example.com ", "localhost:80", "127.0.0.1", "https://a.b", "file:///x", ""] {
        let once = resolve_navigation_target(input, DDG);
        let twice = resolve_navigation_target(&once, DDG);
        assert_eq!(once, twice);
    }
}

#[test]
fn down_undoes_up() {
    let mut s = OmniboxState::new();
    s.push_history(String::from("a.com"));
    s.push_history(String::from("bé.com"));
    s.push_history(String::from("c.com"));
    s.arrow_up();
    s.arrow_up();
    assert_eq!(s.history_index, Some(1));
    let before: Vec<String> = s.history.iter().cloned().collect();
    s.arrow_up();
    s.arrow_down();
    assert_eq!(s.history_index, Some(1));
    assert_eq!(s.input, "bé.com");
    assert_eq!(s.cursor_position, "bé.com".len());
    let after: Vec<String> = s.history.iter().cloned().collect();
    assert_eq!(after, before);
}
