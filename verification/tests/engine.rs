use petal::engine::builder::{
    browser_args, classify_volatile_dir, initialization_script, navigation_allowed, page_load_message,
    volatile_dir_name, webview_bounds, StaleDirVerdict, WebviewBounds,
};
use petal::network::adblock::AdblockEngine;

#[test]
fn volatile_names() {
    assert_eq!(volatile_dir_name(123, 456), "petal_volatile_123_456");
    assert_eq!(volatile_dir_name(0, 0), "petal_volatile_0_0");
    assert_eq!(
        volatile_dir_name(u32::MAX, u128::MAX),
        "petal_volatile_4294967295_340282366920938463463374607431768211455"
    );
}

#[test]
fn stale_dir_classification() {
    assert_eq!(classify_volatile_dir("petal_volatile_42_9", 42), StaleDirVerdict::Keep);
    assert_eq!(classify_volatile_dir("petal_volatile_41_9", 42), StaleDirVerdict::RemoveIfDead(41));
    assert_eq!(classify_volatile_dir("petal_volatile_+41_9", 42), StaleDirVerdict::RemoveIfDead(41));
    assert_eq!(classify_volatile_dir("petal_volatile_99", 42), StaleDirVerdict::Remove);
    assert_eq!(classify_volatile_dir("petal_volatile_x_9", 42), StaleDirVerdict::Keep);
    assert_eq!(classify_volatile_dir("petal_volatile_4294967296_9", 42), StaleDirVerdict::Keep);
    assert_eq!(classify_volatile_dir("petal_volatile__9", 42), StaleDirVerdict::Keep);
    assert_eq!(classify_volatile_dir("petal_volatile_1_2_3", 42), StaleDirVerdict::Keep);
    assert_eq!(classify_volatile_dir("other_dir", 42), StaleDirVerdict::Keep);
    let name = volatile_dir_name(7, 123456789);
    assert_eq!(classify_volatile_dir(&name, 8), StaleDirVerdict::RemoveIfDead(7));
    assert_eq!(classify_volatile_dir(&name, 7), StaleDirVerdict::Keep);
}

#[test]
fn messages_and_arguments() {
    assert_eq!(page_load_message(3, "https://a.b/"), "3|url|https://a.b/");
    assert_eq!(
        browser_args(true),
        "--js-flags=\"--lite-mode --max-old-space-size=128 --scavenger_max_new_space_capacity_mb=4\" --renderer-process-limit=2"
    );
    assert!(browser_args(false).ends_with("--renderer-process-limit=2 --disable-gpu"));
}

#[test]
fn init_script_embeds_blocklist_and_tab() {
    let s = initialization_script("['a.com']", 17);
    assert!(s.contains("const blocked = ['a.com'];"));
    assert!(s.contains("window.ipc.postMessage('17|focus_omnibox|');"));
    assert_eq!(s.matches("'17|title|' + document.title").count(), 2);
    assert!(s.contains("(function() {"));
    assert!(!s.contains("{{"));
}

#[test]
fn bounds_below_chrome() {
    assert_eq!(webview_bounds(800, 600), Some(WebviewBounds { x: 0, y: 64, width: 800, height: 536 }));
    assert_eq!(webview_bounds(800, 64), None);
    assert_eq!(webview_bounds(800, 65), Some(WebviewBounds { x: 0, y: 64, width: 800, height: 1 }));
}

#[test]
fn navigation_filter() {
    let e = AdblockEngine::start();
    assert!(!navigation_allowed(&e, "https://CRITEO.com/x"));
    assert!(navigation_allowed(&e, "https://example.org"));
}
