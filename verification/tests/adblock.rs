use petal::network::adblock::AdblockEngine;

#[test]
fn default_list_as_js_array() {
    let e = AdblockEngine::start();
    assert_eq!(
        e.get_blocked_domains_js_array(),
        "[\"doubleclick.net\",\"google-analytics.com\",\"googlesyndication.com\",\"adservice.google.com\",\"amazon-adsystem.com\",\"taboola.com\",\"outbrain.com\",\"criteo.com\",\"adsafeprotected.com\",\"adnxs.com\",\"adform.net\",\"facebook.com/tr/\",\"connect.facebook.net\",\"pixel.facebook.com\",\"hotjar.com\",\"clarity.ms\"]"
    );
    let c = e.clone();
    assert_eq!(c.get_blocked_domains_js_array(), e.get_blocked_domains_js_array());
}

#[test]
fn blocks_domains_and_subdomains() {
    let e = AdblockEngine::start();
    assert!(e.should_block("https://doubleclick.net/x"));
    assert!(e.should_block("https://ads.doubleclick.net:443/x"));
    assert!(e.should_block("hotjar.com"));
    assert!(!e.should_block("https://notdoubleclick.net"));
    assert!(!e.should_block("https://example.com/doubleclick.net"));
    assert!(e.should_block("https://facebook.com/tr/"));
    assert!(e.should_block("https://www.facebook.com/tr/?id=1"));
    assert!(!e.should_block("https://facebook.com/tracking"));
    assert!(!e.should_block("https://facebook.com/"));
    assert!(e.should_block("https://pixel.facebook.com/tr/"));
}

#[test]
fn lower_cases_before_matching() {
    let e = AdblockEngine::start();
    assert!(e.should_block("HTTPS://DOUBLECLICK.NET/"));
    assert!(e.should_block("https://Ads.Taboola.COM"));
    assert!(!e.should_block_lowercase("https://DOUBLECLICK.NET/"));
    assert!(e.should_block_lowercase("https://doubleclick.net/"));
}

#[test]
fn local_addresses_are_never_blocked() {
    let e = AdblockEngine::start();
    assert!(!e.should_block("petal://doubleclick.net"));
    assert!(!e.should_block("FILE://doubleclick.net"));
    assert!(!e.should_block("localhost.doubleclick.net"));
    assert!(!e.should_block("127.0.0.1"));
    assert!(!e.should_block(""));
}

#[test]
fn extract_host_cases() {
    assert_eq!(AdblockEngine::extract_host("https://a.com:8080/x"), Some("a.com"));
    assert_eq!(AdblockEngine::extract_host("a.com/x"), Some("a.com"));
    assert_eq!(AdblockEngine::extract_host("https://"), None);
    assert_eq!(AdblockEngine::extract_host("https:///path"), None);
    assert_eq!(AdblockEngine::extract_host("x://y://z"), Some("y"));
    assert_eq!(AdblockEngine::extract_host("host:1"), Some("host"));
    assert_eq!(AdblockEngine::extract_host("é://ü.de/"), Some("ü.de"));
    assert_eq!(AdblockEngine::extract_host("https://a.com?x=1"), Some("a.com"));
    assert_eq!(AdblockEngine::extract_host("https://a.com#top"), Some("a.com"));
    assert_eq!(AdblockEngine::extract_host("https://u:p@a.com:80/"), Some("a.com"));
    assert_eq!(AdblockEngine::extract_host("https://u@v@a.com/x@y"), Some("a.com"));
    assert_eq!(AdblockEngine::extract_host("https://u@/x"), None);
}

#[test]
fn subdomains_of_blocked_domains_are_blocked() {
    let e = AdblockEngine::start();
    assert!(e.should_block("https://adnxs.com"));
    assert!(e.should_block("https://ib.adnxs.com"));
    assert!(e.should_block("https://a.b.ib.adnxs.com/x"));
    assert!(!e.should_block("https://adnxs.com.evil.org"));
}

#[test]
fn query_fragment_and_user_info_do_not_hide_the_host() {
    let e = AdblockEngine::start();
    assert!(e.should_block("https://doubleclick.net?x=1"));
    assert!(e.should_block("https://doubleclick.net#x"));
    assert!(e.should_block("https://u:p@doubleclick.net/"));
    assert!(e.should_block("https://facebook.com/tr/?id=1"));
    assert!(!e.should_block("https://doubleclick.net@example.com/"));
    assert!(!e.should_block("https://example.com/?doubleclick.net"));
    assert!(!e.should_block("https://facebook.com/x?/tr/"));
}

#[test]
fn js_array_is_json() {
    let e = AdblockEngine::start();
    let s = e.get_blocked_domains_js_array();
    assert!(s.starts_with("[\"doubleclick.net\","));
    assert!(s.ends_with(",\"clarity.ms\"]"));
    assert!(!s.contains('\''));
}

#[test]
fn js_array_lists_each_domain_once() {
    let e = AdblockEngine::start();
    let s = e.get_blocked_domains_js_array();
    let inner = &s[1..s.len() - 1];
    let items: Vec<&str> = inner.split(',').collect();
    assert_eq!(items.len(), 16);
    for (i, a) in items.iter().enumerate() {
        for b in items.iter().skip(i + 1) {
            assert_ne!(a, b);
        }
    }
}
