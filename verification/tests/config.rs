use petal::config::{config_base, BrowserConfig, HostOs, CONFIG_DIR_NAME, CONFIG_FILE_NAME};

#[test]
fn default_config() {
    let c = BrowserConfig::default();
    assert_eq!(c.search_engine, "https://duckduckgo.com/?q={}");
    assert!(c.hardware_acceleration);
}

#[test]
fn config_text_is_written_in_order() {
    let c = BrowserConfig { search_engine: String::from("https://s.org/?q={}"), hardware_acceleration: false };
    assert_eq!(c.to_ini(), "search_engine=https://s.org/?q={}\nhardware_acceleration=false\n");
    let d = BrowserConfig::default();
    assert_eq!(d.to_ini(), "search_engine=https://duckduckgo.com/?q={}\nhardware_acceleration=true\n");
}

#[test]
fn config_round_trip() {
    let c = BrowserConfig { search_engine: String::from("https://s.org/?a=b&q={}"), hardware_acceleration: false };
    let back = BrowserConfig::from_ini(&c.to_ini());
    assert_eq!(back.search_engine, c.search_engine);
    assert_eq!(back.hardware_acceleration, c.hardware_acceleration);
}

#[test]
fn config_parsing_rules() {
    let text = "# comment\n\n  search_engine =  https://x.y/?q={}  \r\nunknown=1\nno equals sign\nhardware_acceleration = yes\n";
    let c = BrowserConfig::from_ini(text);
    assert_eq!(c.search_engine, "https://x.y/?q={}");
    assert!(!c.hardware_acceleration);
    let c2 = BrowserConfig::from_ini("hardware_acceleration=true\nsearch_engine=a=b");
    assert!(c2.hardware_acceleration);
    assert_eq!(c2.search_engine, "a=b");
    let c3 = BrowserConfig::from_ini("#search_engine=x\n search_engine=y\nsearch_engine=z");
    assert_eq!(c3.search_engine, "z");
    let c4 = BrowserConfig::from_ini("");
    assert_eq!(c4.search_engine, "https://duckduckgo.com/?q={}");
    assert!(c4.hardware_acceleration);
}

#[test]
fn config_clone() {
    let c = BrowserConfig::from_ini("search_engine=q\nhardware_acceleration=false");
    let d = c.clone();
    assert_eq!(d.search_engine, "q");
    assert!(!d.hardware_acceleration);
}

fn some(s: &str) -> Option<String> {
    Some(String::from(s))
}

#[test]
fn config_base_per_platform() {
    assert_eq!(
        config_base(HostOs::Windows, some("C:\\Users\\u\\AppData"), some("/h"), some("/x")),
        Some(vec![String::from("C:\\Users\\u\\AppData")])
    );
    assert_eq!(config_base(HostOs::Windows, None, some("/h"), some("/x")), None);
    assert_eq!(
        config_base(HostOs::MacOs, some("a"), some("/Users/u"), some("/x")),
        Some(vec![String::from("/Users/u"), String::from("Library"), String::from("Application Support")])
    );
    assert_eq!(config_base(HostOs::MacOs, some("a"), None, some("/x")), None);
    assert_eq!(
        config_base(HostOs::Other, some("a"), some("/home/u"), some("/cfg")),
        Some(vec![String::from("/cfg")])
    );
    assert_eq!(
        config_base(HostOs::Other, some("a"), some("/home/u"), None),
        Some(vec![String::from("/home/u"), String::from(".config")])
    );
    assert_eq!(config_base(HostOs::Other, some("a"), None, None), None);
    assert_eq!(CONFIG_DIR_NAME, "PetalBrowser");
    assert_eq!(CONFIG_FILE_NAME, "config.ini");
}
