use vstd::prelude::*;
use crate::text::{
    chars_eq, chars_of, find_char, find_char_in, is_ws, sub_chars, string_of_range, trim,
    strings_view, trim_bounds, trim_end, trim_start, all_ws, is_trimmed, lemma_trim_padded,
};

verus! {

/// User settings of the browser.
#[derive(Debug)]
pub struct BrowserConfig {
    pub search_engine: String,
    pub hardware_acceleration: bool,
}

/// The settings as mathematical values.
pub struct ConfigView {
    pub search_engine: Seq<char>,
    pub hardware_acceleration: bool,
}

impl View for BrowserConfig {
    type V = ConfigView;

    open spec fn view(&self) -> ConfigView {
        ConfigView {
            search_engine: self.search_engine@,
            hardware_acceleration: self.hardware_acceleration,
        }
    }
}

/// Search URL used when none is configured; `{}` stands for the query.
pub open spec fn default_search_engine() -> Seq<char> {
    "https://duckduckgo.com/?q={}"@
}

pub open spec fn default_config() -> ConfigView {
    ConfigView { search_engine: default_search_engine(), hardware_acceleration: true }
}

/// The effect of one line of a settings file: blank lines, `#` comments, lines without
/// `=` and unknown keys change nothing; `search_engine = v` and `hardware_acceleration = v`
/// set the value (the latter to whether `v` is `true`). Keys and values are trimmed.
pub open spec fn apply_config_line(cfg: ConfigView, line: Seq<char>) -> ConfigView {
    let t = trim(line);
    if t.len() == 0 || t[0] == '#' {
        cfg
    } else {
        let i = find_char(t, '=');
        if i >= t.len() {
            cfg
        } else {
            let k = trim(t.take(i));
            let v = trim(t.skip(i + 1));
            if k == "search_engine"@ {
                ConfigView { search_engine: v, ..cfg }
            } else if k == "hardware_acceleration"@ {
                ConfigView { hardware_acceleration: v == "true"@, ..cfg }
            } else {
                cfg
            }
        }
    }
}

/// The effect of a settings file: its lines (split at `\n`) applied in order.
pub open spec fn apply_config_text(cfg: ConfigView, s: Seq<char>) -> ConfigView
    decreases s.len(),
{
    if s.len() == 0 {
        cfg
    } else {
        let e = find_char(s, '\n');
        let c2 = apply_config_line(cfg, s.take(e));
        if 0 <= e < s.len() {
            apply_config_text(c2, s.skip(e + 1))
        } else {
            c2
        }
    }
}

pub open spec fn bool_text(b: bool) -> Seq<char> {
    if b {
        "true"@
    } else {
        "false"@
    }
}

/// The settings file written for `c`.
pub open spec fn config_text(c: ConfigView) -> Seq<char> {
    "search_engine="@ + c.search_engine + "\nhardware_acceleration="@ + bool_text(c.hardware_acceleration) + "\n"@
}

impl BrowserConfig {
    /// The built-in settings: DuckDuckGo search and hardware acceleration on.
    pub fn default() -> (r: Self)
        ensures
            r@ == default_config(),
    {
        BrowserConfig {
            search_engine: String::from_str("https://duckduckgo.com/?q={}"),
            hardware_acceleration: true,
        }
    }

    /// Applies one line of a settings file.
    fn apply_line(&mut self, v: &Vec<char>, from: usize, to: usize)
        requires
            from <= to <= v.len(),
        ensures
            final(self)@ == apply_config_line(old(self)@, v@.subrange(from as int, to as int)),
    {
        let line = sub_chars(v, from, to);
        let (a, e) = trim_bounds(&line);
        let t = sub_chars(&line, a, e);
        if t.len() == 0 || t[0] == '#' {
            return;
        }
        let i = find_char_in(&t, 0, t.len(), '=');
        assert(t@.subrange(0, t@.len() as int) =~= t@);
        if i >= t.len() {
            return;
        }
        let kraw = sub_chars(&t, 0, i);
        let (ka, ke) = trim_bounds(&kraw);
        let k = sub_chars(&kraw, ka, ke);
        let vraw = sub_chars(&t, i + 1, t.len());
        let (va, ve) = trim_bounds(&vraw);
        let value = sub_chars(&vraw, va, ve);
        assert(kraw@ =~= t@.take(i as int));
        assert(vraw@ =~= t@.skip(i + 1));
        let search_key = chars_of("search_engine");
        let accel_key = chars_of("hardware_acceleration");
        if chars_eq(&k, &search_key) {
            self.search_engine = string_of_range(&value, 0, value.len());
            assert(value@.subrange(0, value@.len() as int) =~= value@);
        } else if chars_eq(&k, &accel_key) {
            let t = chars_of("true");
            self.hardware_acceleration = chars_eq(&value, &t);
        }
    }

    /// Settings read from the text of a settings file, starting from the built-in ones.
    pub fn from_ini(content: &str) -> (r: Self)
        ensures
            r@ == apply_config_text(default_config(), content@),
    {
        let mut cfg = BrowserConfig::default();
        let v = chars_of(content);
        let n = v.len();
        let mut pos: usize = 0;
        assert(v@.skip(0) =~= v@);
        while pos < n
            invariant
                n == v@.len(),
                pos <= n,
                v@ == content@,
                apply_config_text(default_config(), content@) == apply_config_text(cfg@, v@.skip(pos as int)),
            decreases n - pos,
        {
            let e = find_char_in(&v, pos, n, '\n');
            proof {
                let s = v@.skip(pos as int);
                assert(v@.subrange(pos as int, n as int) =~= s);
                assert(s.take(e as int) =~= v@.subrange(pos as int, pos + e));
                if pos + e < n {
                    assert(s.skip(e + 1) =~= v@.skip(pos + e + 1));
                }
            }
            cfg.apply_line(&v, pos, pos + e);
            if pos + e < n {
                pos = pos + e + 1;
            } else {
                pos = n;
                assert(v@.skip(n as int) =~= Seq::<char>::empty());
            }
        }
        assert(v@.skip(n as int) =~= Seq::<char>::empty());
        cfg
    }

    /// The text of the settings file that stores these settings.
    pub fn to_ini(&self) -> (r: String)
        ensures
            r@ == config_text(self@),
    {
        let mut r = String::from_str("search_engine=");
        r.append(self.search_engine.as_str());
        r.append("\nhardware_acceleration=");
        if self.hardware_acceleration {
            r.append("true");
        } else {
            r.append("false");
        }
        r.append("\n");
        r
    }
}

impl Clone for BrowserConfig {
    fn clone(&self) -> (r: Self)
        ensures
            r@ == self@,
    {
        BrowserConfig {
            search_engine: self.search_engine.clone(),
            hardware_acceleration: self.hardware_acceleration,
        }
    }
}


proof fn lemma_trim_start_len(s: Seq<char>)
    ensures
        trim_start(s).len() <= s.len(),
        s.len() > 0 && is_ws(s[0]) ==> trim_start(s).len() < s.len(),
    decreases s.len(),
{
    if s.len() > 0 && is_ws(s[0]) {
        lemma_trim_start_len(s.drop_first());
    }
}

proof fn lemma_trim_end_len(s: Seq<char>)
    ensures
        trim_end(s).len() <= s.len(),
        s.len() > 0 && is_ws(s.last()) ==> trim_end(s).len() < s.len(),
        trim_end(s).len() > 0 ==> trim_end(s)[0] == s[0],
    decreases s.len(),
{
    if s.len() > 0 && is_ws(s.last()) {
        lemma_trim_end_len(s.drop_last());
    }
}

/// A sequence that trimming leaves alone neither starts nor ends with white space.
proof fn lemma_trimmed_ends(s: Seq<char>)
    requires
        trim(s) == s,
    ensures
        s.len() == 0 || (!is_ws(s[0]) && !is_ws(s.last())),
{
    lemma_trim_start_len(s);
    lemma_trim_end_len(trim_start(s));
    if s.len() > 0 && !is_ws(s[0]) {
        assert(trim_start(s) == s);
        lemma_trim_end_len(s);
    }
}


/// Reading one `key=value` line whose key and value are already trimmed.
proof fn lemma_read_line(cfg: ConfigView, key: Seq<char>, value: Seq<char>)
    requires
        key.len() > 0,
        !is_ws(key[0]),
        key[0] != '#',
        !is_ws(key.last()),
        !key.contains('='),
        trim(value) == value,
    ensures
        apply_config_line(cfg, key + seq!['='] + value) == (if key == "search_engine"@ {
            ConfigView { search_engine: value, ..cfg }
        } else if key == "hardware_acceleration"@ {
            ConfigView { hardware_acceleration: value == "true"@, ..cfg }
        } else {
            cfg
        }),
{
    let line = key + seq!['='] + value;
    lemma_trimmed_ends(value);
    assert(line[0] == key[0]);
    if value.len() > 0 {
        assert(line.last() == value.last());
    } else {
        assert(line.last() == '=');
    }
    crate::text::lemma_trim_noop(line);
    let i = key.len() as int;
    assert forall|j: int| 0 <= j < i implies #[trigger] line[j] != '=' by {
        assert(line[j] == key[j]);
        if key[j] == '=' {
            assert(key.contains('='));
        }
    }
    assert(line[i] == '=');
    crate::text::lemma_find_char(line, '=', i);
    assert(line.take(i) =~= key);
    crate::text::lemma_trim_noop(key);
    assert(line.skip(i + 1) =~= value);
}

/// Reading `line + "\n" + rest` applies `line` and then reads `rest`.
proof fn lemma_read_first_line(cfg: ConfigView, line: Seq<char>, rest: Seq<char>)
    requires
        !line.contains('\n'),
    ensures
        apply_config_text(cfg, line + seq!['\n'] + rest) == apply_config_text(
            apply_config_line(cfg, line),
            rest,
        ),
{
    let s = line + seq!['\n'] + rest;
    let i = line.len() as int;
    assert forall|j: int| 0 <= j < i implies #[trigger] s[j] != '\n' by {
        assert(s[j] == line[j]);
        if line[j] == '\n' {
            assert(line.contains('\n'));
        }
    }
    crate::text::lemma_find_char(s, '\n', i);
    assert(s.take(i) =~= line);
    assert(s.skip(i + 1) =~= rest);
}

/// Reading back the settings file written for a configuration gives that configuration,
/// whatever the settings were before, when the search engine has no surrounding white space
/// and no line break.
pub proof fn law_config_round_trip(before: ConfigView, c: ConfigView)
    requires
        trim(c.search_engine) == c.search_engine,
        !c.search_engine.contains('\n'),
    ensures
        apply_config_text(before, config_text(c)) == c,
{
    reveal_strlit("search_engine=");
    reveal_strlit("search_engine");
    reveal_strlit("\nhardware_acceleration=");
    reveal_strlit("hardware_acceleration");
    reveal_strlit("\n");
    reveal_strlit("true");
    reveal_strlit("false");
    let se = c.search_engine;
    let b = bool_text(c.hardware_acceleration);
    let k1 = "search_engine"@;
    let k2 = "hardware_acceleration"@;
    assert(config_text(c) =~= (k1 + seq!['='] + se) + seq!['\n'] + ((k2 + seq!['='] + b) + seq!['\n']
        + Seq::<char>::empty()));
    let line1 = k1 + seq!['='] + se;
    assert(!line1.contains('\n')) by {
        if line1.contains('\n') {
            let j = choose|j: int| 0 <= j < line1.len() && line1[j] == '\n';
            if j >= k1.len() + 1 {
                assert(se[j - k1.len() - 1] == '\n');
            }
        }
    }
    lemma_read_first_line(before, line1, (k2 + seq!['='] + b) + seq!['\n'] + Seq::<char>::empty());
    assert(!k1.contains('=')) by {
        if k1.contains('=') {
            let j = choose|j: int| 0 <= j < k1.len() && k1[j] == '=';
        }
    }
    lemma_read_line(before, k1, se);
    let cfg1 = ConfigView { search_engine: se, ..before };
    let line2 = k2 + seq!['='] + b;
    assert(trim(b) == b) by {
        crate::text::lemma_trim_noop(b);
    }
    assert(!line2.contains('\n')) by {
        if line2.contains('\n') {
            let j = choose|j: int| 0 <= j < line2.len() && line2[j] == '\n';
        }
    }
    lemma_read_first_line(cfg1, line2, Seq::<char>::empty());
    assert(!k2.contains('=')) by {
        if k2.contains('=') {
            let j = choose|j: int| 0 <= j < k2.len() && k2[j] == '=';
        }
    }
    assert(k2 != k1);
    lemma_read_line(cfg1, k2, b);
    assert((b == "true"@) == c.hardware_acceleration);
}

/// The trimmed text of a line `key = value` padded with white space starts with the key's
/// first character, and splitting it at its first `=` gives back the key and the value.
proof fn lemma_line_split(
    key: Seq<char>,
    value: Seq<char>,
    ws0: Seq<char>,
    ws1: Seq<char>,
    ws2: Seq<char>,
    ws3: Seq<char>,
)
    requires
        key.len() > 0,
        is_trimmed(key),
        !key.contains('='),
        is_trimmed(value),
        all_ws(ws0),
        all_ws(ws1),
        all_ws(ws2),
        all_ws(ws3),
    ensures
        ({
            let t = trim(ws0 + key + ws1 + seq!['='] + ws2 + value + ws3);
            let i = find_char(t, '=');
            &&& t.len() > 0
            &&& t[0] == key[0]
            &&& 0 <= i < t.len()
            &&& trim(t.take(i)) == key
            &&& trim(t.skip(i + 1)) == value
        }),
{
    let line = ws0 + key + ws1 + seq!['='] + ws2 + value + ws3;
    let eq = seq!['='];
    let (m, b) = if value.len() > 0 {
        (key + ws1 + eq + ws2 + value, ws3)
    } else {
        (key + ws1 + eq, ws2 + ws3)
    };
    assert(line =~= ws0 + m + b);
    assert(m[0] == key[0]);
    if value.len() > 0 {
        assert(m.last() == value.last());
    } else {
        assert(m.last() == '=');
    }
    assert(!is_ws('='));
    assert(all_ws(b)) by {
        if value.len() == 0 {
            assert forall|j: int| 0 <= j < b.len() implies is_ws(#[trigger] b[j]) by {
                if j < ws2.len() {
                    assert(b[j] == ws2[j]);
                } else {
                    assert(b[j] == ws3[j - ws2.len()]);
                }
            }
        }
    }
    lemma_trim_padded(ws0, m, b);
    let t = trim(line);
    assert(t == m);
    let i: int = (key.len() + ws1.len()) as int;
    assert forall|j: int| 0 <= j < i implies #[trigger] m[j] != '=' by {
        if j < key.len() {
            assert(m[j] == key[j]);
            if key[j] == '=' {
                assert(key.contains('='));
            }
        } else {
            assert(m[j] == ws1[j - key.len()]);
            assert(is_ws(ws1[j - key.len()]));
        }
    }
    assert(m[i] == '=');
    crate::text::lemma_find_char(m, '=', i);
    assert(m.take(i) =~= Seq::<char>::empty() + key + ws1);
    lemma_trim_padded(Seq::<char>::empty(), key, ws1);
    assert(all_ws(Seq::<char>::empty()));
    if value.len() > 0 {
        assert(m.skip(i + 1) =~= ws2 + value + Seq::<char>::empty());
        lemma_trim_padded(ws2, value, Seq::<char>::empty());
    } else {
        assert(m.skip(i + 1) =~= Seq::<char>::empty() + value + Seq::<char>::empty());
        lemma_trim_padded(Seq::<char>::empty(), value, Seq::<char>::empty());
    }
}

/// White space around a settings line, its key, its `=` and its value does not matter:
/// `key = value` padded with white space reads as `key=value`.
pub proof fn law_config_line_spacing(
    cfg: ConfigView,
    key: Seq<char>,
    value: Seq<char>,
    ws0: Seq<char>,
    ws1: Seq<char>,
    ws2: Seq<char>,
    ws3: Seq<char>,
)
    requires
        key.len() > 0,
        is_trimmed(key),
        !key.contains('='),
        is_trimmed(value),
        all_ws(ws0),
        all_ws(ws1),
        all_ws(ws2),
        all_ws(ws3),
    ensures
        apply_config_line(cfg, ws0 + key + ws1 + seq!['='] + ws2 + value + ws3) == apply_config_line(
            cfg,
            key + seq!['='] + value,
        ),
{
    let e = Seq::<char>::empty();
    assert(all_ws(e));
    lemma_line_split(key, value, ws0, ws1, ws2, ws3);
    lemma_line_split(key, value, e, e, e, e);
    assert(e + key + e + seq!['='] + e + value + e =~= key + seq!['='] + value);
}

/// A `search_engine` line sets the search engine to its value, and a
/// `hardware_acceleration` line turns acceleration on exactly when its value is `true`,
/// whatever white space surrounds the key, the `=` and the value; nothing else changes.
pub proof fn law_config_known_keys(
    cfg: ConfigView,
    value: Seq<char>,
    ws0: Seq<char>,
    ws1: Seq<char>,
    ws2: Seq<char>,
    ws3: Seq<char>,
)
    requires
        is_trimmed(value),
        all_ws(ws0),
        all_ws(ws1),
        all_ws(ws2),
        all_ws(ws3),
    ensures
        apply_config_line(cfg, ws0 + "search_engine"@ + ws1 + seq!['='] + ws2 + value + ws3) == (ConfigView {
            search_engine: value,
            hardware_acceleration: cfg.hardware_acceleration,
        }),
        apply_config_line(cfg, ws0 + "hardware_acceleration"@ + ws1 + seq!['='] + ws2 + value + ws3) == (ConfigView {
            search_engine: cfg.search_engine,
            hardware_acceleration: value == "true"@,
        }),
{
    reveal_strlit("search_engine");
    reveal_strlit("hardware_acceleration");
    reveal_strlit("true");
    let k1 = "search_engine"@;
    let k2 = "hardware_acceleration"@;
    assert(!k1.contains('=')) by {
        if k1.contains('=') {
            let j = choose|j: int| 0 <= j < k1.len() && k1[j] == '=';
        }
    }
    assert(!k2.contains('=')) by {
        if k2.contains('=') {
            let j = choose|j: int| 0 <= j < k2.len() && k2[j] == '=';
        }
    }
    assert(k1 != k2) by {
        assert(k1.len() != k2.len());
    }
    lemma_line_split(k1, value, ws0, ws1, ws2, ws3);
    lemma_line_split(k2, value, ws0, ws1, ws2, ws3);
}

/// The operating system family, which decides where the settings file lives.
#[derive(Clone, Copy, Debug, PartialEq, Eq, Structural)]
pub enum HostOs {
    Windows,
    MacOs,
    Other,
}

/// Name of the directory that holds the settings file.
pub const CONFIG_DIR_NAME: &'static str = "PetalBrowser";

/// Name of the settings file.
pub const CONFIG_FILE_NAME: &'static str = "config.ini";

/// The characters of an optional string.
pub open spec fn opt_chars(o: Option<String>) -> Option<Seq<char>> {
    match o {
        Some(s) => Some(s@),
        None => None,
    }
}

/// The path components of the directory under which the settings directory is made,
/// given the values of the environment variables `APPDATA`, `HOME` and
/// `XDG_CONFIG_HOME` (each `None` when unset): on Windows `APPDATA`; on macOS
/// `HOME/Library/Application Support`; elsewhere `XDG_CONFIG_HOME`, or else
/// `HOME/.config`. `None` when the variable needed is unset: the current directory.
pub open spec fn config_base_spec(
    os: HostOs,
    appdata: Option<Seq<char>>,
    home: Option<Seq<char>>,
    xdg_config_home: Option<Seq<char>>,
) -> Option<Seq<Seq<char>>> {
    match os {
        HostOs::Windows => match appdata {
            Some(a) => Some(seq![a]),
            None => None,
        },
        HostOs::MacOs => match home {
            Some(h) => Some(seq![h, "Library"@, "Application Support"@]),
            None => None,
        },
        HostOs::Other => match xdg_config_home {
            Some(x) => Some(seq![x]),
            None => match home {
                Some(h) => Some(seq![h, ".config"@]),
                None => None,
            },
        },
    }
}

/// The path components of the directory under which the settings directory
/// (`CONFIG_DIR_NAME`) is made; `None` for the current directory.
pub fn config_base(
    os: HostOs,
    appdata: Option<String>,
    home: Option<String>,
    xdg_config_home: Option<String>,
) -> (r: Option<Vec<String>>)
    ensures
        r matches Some(v) ==> config_base_spec(
            os,
            opt_chars(appdata),
            opt_chars(home),
            opt_chars(xdg_config_home),
        ) == Some(strings_view(v@)),
        r is None ==> config_base_spec(
            os,
            opt_chars(appdata),
            opt_chars(home),
            opt_chars(xdg_config_home),
        ) is None,
{
    let r = match os {
        HostOs::Windows => match appdata {
            Some(a) => Some(vec![a]),
            None => None,
        },
        HostOs::MacOs => match home {
            Some(h) => Some(vec![h, String::from_str("Library"), String::from_str("Application Support")]),
            None => None,
        },
        HostOs::Other => match xdg_config_home {
            Some(x) => Some(vec![x]),
            None => match home {
                Some(h) => Some(vec![h, String::from_str(".config")]),
                None => None,
            },
        },
    };
    proof {
        if r is Some {
            assert(strings_view(r->0@) =~= config_base_spec(
                os,
                opt_chars(appdata),
                opt_chars(home),
                opt_chars(xdg_config_home),
            )->0);
        }
    }
    r
}

} // verus!
