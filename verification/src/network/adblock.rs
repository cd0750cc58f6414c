use vstd::prelude::*;
use crate::text::{
    chars_of, chars_eq, ends_with, find_any, find_any_in, after_last, after_last_in, find_char, find_char_in, find_pat,
    find_pattern, has_prefix, sub_chars, starts_with_at,
    has_suffix, hex_char, hex_digit, push_char, starts_with, strings_view,
};

verus! {

/// The Unicode lower-case mapping of a string, as `str::to_lowercase` computes it.
pub uninterp spec fn lowercase(s: Seq<char>) -> Seq<char>;

/// `str::to_lowercase`: returns the lower-case equivalent of `s` under Unicode's
/// `Lowercase` mapping. The contract only names the result (`lowercase`); the
/// mapping itself is not stated.
#[verifier::external_body]
fn to_lowercase(s: &str) -> (r: String)
    ensures
        r@ == lowercase(s@),
{
    s.to_lowercase()
}

/// Blocks navigations to ad and tracking hosts.
///
/// The block list holds each entry once, in the order in which the entries were
/// added; that order is the order of the JSON array handed to page scripts.
pub struct AdblockEngine {
    blocked_domains: Vec<String>,
}

impl View for AdblockEngine {
    type V = Seq<Seq<char>>;

    closed spec fn view(&self) -> Seq<Seq<char>> {
        strings_view(self.blocked_domains@)
    }
}

/// The ad and tracking domains blocked from the start.
pub open spec fn default_blocklist() -> Seq<Seq<char>> {
    seq![
        "doubleclick.net"@,
        "google-analytics.com"@,
        "googlesyndication.com"@,
        "adservice.google.com"@,
        "amazon-adsystem.com"@,
        "taboola.com"@,
        "outbrain.com"@,
        "criteo.com"@,
        "adsafeprotected.com"@,
        "adnxs.com"@,
        "adform.net"@,
        "facebook.com/tr/"@,
        "connect.facebook.net"@,
        "pixel.facebook.com"@,
        "hotjar.com"@,
        "clarity.ms"@,
    ]
}

pub open spec fn no_duplicates(s: Seq<Seq<char>>) -> bool {
    forall|i: int, j: int| 0 <= i < j < s.len() ==> s[i] != s[j]
}

/// Separator between a URL's scheme and the rest.
pub open spec fn scheme_sep() -> Seq<char> {
    seq![':', '/', '/']
}

/// Start and end of the part of `url` after its scheme: the text after the first `://`
/// up to the next `://`, or all of `url` when it has none.
pub open spec fn after_scheme(url: Seq<char>) -> (int, int) {
    let i = find_pat(url, scheme_sep());
    if i < url.len() {
        (i + 3, i + 3 + find_pat(url.skip(i + 3), scheme_sep()))
    } else {
        (0, url.len() as int)
    }
}

/// Characters that end a URL's authority.
pub open spec fn authority_ends() -> Seq<char> {
    seq!['/', '?', '#']
}

/// Characters that end a URL's path.
pub open spec fn path_ends() -> Seq<char> {
    seq!['?', '#']
}

/// End of the authority of `url`: the first `/`, `?` or `#` after the scheme.
pub open spec fn authority_end(url: Seq<char>) -> int {
    let (a, e) = after_scheme(url);
    a + find_any(url.subrange(a, e), authority_ends())
}

/// Start and end of the host in `url`: the authority, after any user information (up
/// to the last `@`), cut at the first `:`.
pub open spec fn host_range(url: Seq<char>) -> (int, int) {
    let (a, e) = after_scheme(url);
    let ae = authority_end(url);
    let h = a + after_last(url.subrange(a, ae), '@');
    (h, h + find_char(url.subrange(h, ae), ':'))
}

/// The host of `url`, when it is not empty.
pub open spec fn host_of(url: Seq<char>) -> Option<Seq<char>> {
    let (a, e) = host_range(url);
    if a < e {
        Some(url.subrange(a, e))
    } else {
        None
    }
}

/// The path of `url`: what follows the authority, up to the first `?` or `#`.
pub open spec fn path_of(url: Seq<char>) -> Seq<char> {
    let (a, e) = after_scheme(url);
    let rest = url.subrange(authority_end(url), e);
    rest.take(find_any(rest, path_ends()))
}

/// Positions in `v` of the host (`r.0 .. r.1`) and of the path (`r.2 .. r.3`) of the URL `v`.
fn url_bounds(v: &Vec<char>) -> (r: (usize, usize, usize, usize))
    ensures
        (r.0 as int, r.1 as int) == host_range(v@),
        r.0 <= r.1 <= v.len(),
        r.2 <= r.3 <= v.len(),
        v@.subrange(r.2 as int, r.3 as int) == path_of(v@),
{
    let sep: Vec<char> = vec![':', '/', '/'];
    assert(sep@ =~= scheme_sep());
    assert(v@.skip(0) =~= v@);
    let i = find_pattern(v, 0, &sep);
    proof {
        crate::text::lemma_find_pat_bound(v@, sep@);
    }
    let (a, e) = if i < v.len() {
        let j = find_pattern(v, i + 3, &sep);
        (i + 3, i + 3 + j)
    } else {
        (0, v.len())
    };
    let auth_ends: Vec<char> = vec!['/', '?', '#'];
    assert(auth_ends@ =~= authority_ends());
    let ae = a + find_any_in(v, a, e, &auth_ends);
    let h = a + after_last_in(v, a, ae, '@');
    let colon = find_char_in(v, h, ae, ':');
    let ends: Vec<char> = vec!['?', '#'];
    assert(ends@ =~= path_ends());
    let p = find_any_in(v, ae, e, &ends);
    proof {
        let rest = v@.subrange(ae as int, e as int);
        assert(rest.take(p as int) =~= v@.subrange(ae as int, ae + p));
    }
    (h, h + colon, ae, ae + p)
}

impl AdblockEngine {
    /// Whether nothing occurs twice in the block list.
    #[verifier::type_invariant]
    spec fn blocklist_inv(self) -> bool {
        no_duplicates(strings_view(self.blocked_domains@))
    }

    /// An engine blocking the default list of ad and tracking domains.
    pub fn start() -> (r: Self)
        ensures
            r@ == default_blocklist(),
            no_duplicates(r@),
    {
        let mut domains: Vec<String> = Vec::new();
        domains.push(String::from_str("doubleclick.net"));
        domains.push(String::from_str("google-analytics.com"));
        domains.push(String::from_str("googlesyndication.com"));
        domains.push(String::from_str("adservice.google.com"));
        domains.push(String::from_str("amazon-adsystem.com"));
        domains.push(String::from_str("taboola.com"));
        domains.push(String::from_str("outbrain.com"));
        domains.push(String::from_str("criteo.com"));
        domains.push(String::from_str("adsafeprotected.com"));
        domains.push(String::from_str("adnxs.com"));
        domains.push(String::from_str("adform.net"));
        domains.push(String::from_str("facebook.com/tr/"));
        domains.push(String::from_str("connect.facebook.net"));
        domains.push(String::from_str("pixel.facebook.com"));
        domains.push(String::from_str("hotjar.com"));
        domains.push(String::from_str("clarity.ms"));
        proof {
            assert(strings_view(domains@) =~= default_blocklist());
            reveal_strlit("doubleclick.net");
            reveal_strlit("google-analytics.com");
            reveal_strlit("googlesyndication.com");
            reveal_strlit("adservice.google.com");
            reveal_strlit("amazon-adsystem.com");
            reveal_strlit("taboola.com");
            reveal_strlit("outbrain.com");
            reveal_strlit("criteo.com");
            reveal_strlit("adsafeprotected.com");
            reveal_strlit("adnxs.com");
            reveal_strlit("adform.net");
            reveal_strlit("facebook.com/tr/");
            reveal_strlit("connect.facebook.net");
            reveal_strlit("pixel.facebook.com");
            reveal_strlit("hotjar.com");
            reveal_strlit("clarity.ms");
            let d = default_blocklist();
            assert forall|i: int, j: int| 0 <= i < j < d.len() implies d[i] != d[j] by {
                if d[i] == d[j] {
                    assert(d[i].len() == d[j].len());
                    assert(d[i][0] == d[j][0]);
                    assert(d[i][1] == d[j][1]);
                    assert(d[i][2] == d[j][2]);
                    assert(d[i][3] == d[j][3]);
                    assert(d[i][4] == d[j][4]);
                }
            }
        }
        AdblockEngine { blocked_domains: domains }
    }

    /// The host of `url` (see `host_of`), or `None` when it is empty.
    pub fn extract_host(url: &str) -> (r: Option<&str>)
        ensures
            r matches Some(h) ==> host_of(url@) == Some(h@),
            r is None ==> host_of(url@) is None,
    {
        let v = chars_of(url);
        let (h0, h1, _p0, _p1) = url_bounds(&v);
        if h0 < h1 {
            Some(url.substring_char(h0, h1))
        } else {
            None
        }
    }

    /// Whether a navigation to `url` should be blocked; the URL is lower-cased first.
    pub fn should_block(&self, url: &str) -> (b: bool)
        ensures
            b == blocks(self@, lowercase(url@)),
    {
        let normalized = to_lowercase(url);
        self.should_block_lowercase(normalized.as_str())
    }

    /// Whether a navigation to the already lower-cased `normalized` should be blocked.
    pub fn should_block_lowercase(&self, normalized: &str) -> (b: bool)
        ensures
            b == blocks(self@, normalized@),
    {
        let v = chars_of(normalized);
        if starts_with(&v, "petal://") || starts_with(&v, "file://") || starts_with(&v, "localhost")
            || starts_with(&v, "127.0.0.1") {
            return false;
        }
        let (h0, h1, p0, p1) = url_bounds(&v);
        if h0 >= h1 {
            return false;
        }
        let host = sub_chars(&v, h0, h1);
        assert(host_of(normalized@) == Some(host@));
        let path = sub_chars(&v, p0, p1);
        let ghost ds = self@;
        let mut i: usize = 0;
        while i < self.blocked_domains.len()
            invariant
                ds == strings_view(self.blocked_domains@),
                ds == self@,
                host_of(normalized@) == Some(host@),
                path@ == path_of(normalized@),
                v@ == normalized@,
                !(has_prefix(v@, "petal://"@) || has_prefix(v@, "file://"@) || has_prefix(
                    v@,
                    "localhost"@,
                ) || has_prefix(v@, "127.0.0.1"@)),
                i <= self.blocked_domains.len(),
                forall|j: int| 0 <= j < i ==> !#[trigger] entry_covers(ds[j], host@, path@),
            decreases self.blocked_domains.len() - i,
        {
            let dv = chars_of(self.blocked_domains[i].as_str());
            assert(ds[i as int] == dv@);
            if covers(&dv, &host, &path) {
                assert(entry_covers(ds[i as int], host@, path@));
                assert(host_of(normalized@)->0 == host@);
                assert(blocks(ds, normalized@));
                return true;
            }
            i = i + 1;
        }
        false
    }

    /// The blocked domains as a JSON array of strings, for use in page scripts.
    pub fn get_blocked_domains_js_array(&self) -> (r: String)
        ensures
            r@ == js_array(self@),
            no_duplicates(self@),
    {
        proof {
            use_type_invariant(self);
        }
        let ghost ds = self@;
        let mut items = String::new();
        let mut i: usize = 0;
        assert(ds.take(0) =~= Seq::<Seq<char>>::empty());
        while i < self.blocked_domains.len()
            invariant
                ds == strings_view(self.blocked_domains@),
                i <= self.blocked_domains.len(),
                items@ == js_items(ds.take(i as int)),
            decreases self.blocked_domains.len() - i,
        {
            let ghost before = items@;
            if i > 0 {
                push_char(&mut items, ',');
            }
            push_json_string(&mut items, self.blocked_domains[i].as_str());
            proof {
                let t = ds.take(i + 1);
                assert(t.drop_last() =~= ds.take(i as int));
                assert(t.last() == self.blocked_domains@[i as int]@);
                if i == 0 {
                    assert(items@ =~= quoted(t[0]));
                } else {
                    assert(items@ =~= before + seq![','] + quoted(t.last()));
                }
            }
            i = i + 1;
        }
        assert(ds.take(ds.len() as int) =~= ds);
        let mut r = String::new();
        push_char(&mut r, '[');
        r.append(items.as_str());
        push_char(&mut r, ']');
        assert(r@ =~= js_array(ds));
        r
    }
}


/// Whether `host` is `domain` or one of its subdomains.
pub open spec fn host_matches(host: Seq<char>, domain: Seq<char>) -> bool {
    host == domain || has_suffix(host, seq!['.'] + domain)
}

/// Whether a block list entry covers a URL with host `host` and path `path`. An entry
/// `d/p` with a `/` covers the paths that start with `/p` on `d` and on its subdomains;
/// any other entry covers all of its host and of its subdomains.
pub open spec fn entry_covers(entry: Seq<char>, host: Seq<char>, path: Seq<char>) -> bool {
    let k = find_char(entry, '/');
    if k < entry.len() {
        host_matches(host, entry.take(k)) && has_prefix(path, entry.skip(k))
    } else {
        host_matches(host, entry)
    }
}

/// Whether a navigation to the lower-cased URL `url` is blocked by `domains`: local and
/// internal addresses never are; others are when an entry covers their host and path.
pub open spec fn blocks(domains: Seq<Seq<char>>, url: Seq<char>) -> bool {
    if has_prefix(url, "petal://"@) || has_prefix(url, "file://"@) || has_prefix(url, "localhost"@)
        || has_prefix(url, "127.0.0.1"@) {
        false
    } else {
        match host_of(url) {
            Some(h) => exists|i: int|
                0 <= i < domains.len() && #[trigger] entry_covers(domains[i], h, path_of(url)),
            None => false,
        }
    }
}

/// Whether `host` is `domain` or one of its subdomains.
fn host_matches_exec(host: &Vec<char>, domain: &Vec<char>) -> (b: bool)
    ensures
        b == host_matches(host@, domain@),
{
    if chars_eq(host, domain) {
        return true;
    }
    let mut dotted: Vec<char> = vec!['.'];
    let mut k: usize = 0;
    while k < domain.len()
        invariant
            k <= domain.len(),
            dotted@ == seq!['.'] + domain@.take(k as int),
        decreases domain.len() - k,
    {
        dotted.push(domain[k]);
        k = k + 1;
        assert(dotted@ =~= seq!['.'] + domain@.take(k as int));
    }
    assert(domain@.take(domain@.len() as int) =~= domain@);
    ends_with(host, &dotted)
}

/// Whether the block list entry `entry` covers a URL with host `host` and path `path`.
fn covers(entry: &Vec<char>, host: &Vec<char>, path: &Vec<char>) -> (b: bool)
    ensures
        b == entry_covers(entry@, host@, path@),
{
    let k = find_char_in(entry, 0, entry.len(), '/');
    assert(entry@.subrange(0, entry@.len() as int) =~= entry@);
    if k < entry.len() {
        let dh = sub_chars(entry, 0, k);
        let dp = sub_chars(entry, k, entry.len());
        assert(dh@ =~= entry@.take(k as int));
        assert(dp@ =~= entry@.skip(k as int));
        assert(path@.skip(0) =~= path@);
        host_matches_exec(host, &dh) && starts_with_at(path, 0, &dp)
    } else {
        host_matches_exec(host, entry)
    }
}

/// How `c` is written inside a JSON string: a quotation mark or a backslash behind a
/// backslash, a control character as `\u00XX`, any other character as it is.
pub open spec fn json_char(c: char) -> Seq<char> {
    if c == '"' {
        seq!['\\', '"']
    } else if c == '\\' {
        seq!['\\', '\\']
    } else if (c as u32) < 0x20 {
        seq!['\\', 'u', '0', '0', hex_digit(((c as u32) / 16) as u8), hex_digit(((c as u32) % 16) as u8)]
    } else {
        seq![c]
    }
}

/// The characters of `s`, each written as inside a JSON string.
pub open spec fn json_escape(s: Seq<char>) -> Seq<char>
    decreases s.len(),
{
    if s.len() == 0 {
        Seq::empty()
    } else {
        json_escape(s.drop_last()) + json_char(s.last())
    }
}

/// Text without quotation marks, backslashes or control characters stands in a JSON
/// string as it is.
pub proof fn law_plain_text_unescaped(s: Seq<char>)
    requires
        forall|i: int| 0 <= i < s.len() ==> #[trigger] s[i] != '"' && s[i] != '\\' && (s[i] as u32) >= 0x20,
    ensures
        json_escape(s) == s,
    decreases s.len(),
{
    if s.len() > 0 {
        let t = s.drop_last();
        assert forall|i: int| 0 <= i < t.len() implies #[trigger] t[i] != '"' && t[i] != '\\' && (t[i] as u32) >= 0x20 by {
            assert(t[i] == s[i]);
        }
        law_plain_text_unescaped(t);
        assert(s[s.len() - 1] == s.last());
        assert(t + seq![s.last()] =~= s);
    }
}

/// `d` as a JSON string literal.
pub open spec fn quoted(d: Seq<char>) -> Seq<char> {
    seq!['"'] + json_escape(d) + seq!['"']
}

/// Appends `d` to `out` as a JSON string literal.
fn push_json_string(out: &mut String, d: &str)
    ensures
        final(out)@ == old(out)@ + quoted(d@),
{
    let v = chars_of(d);
    let ghost start = out@;
    push_char(out, '"');
    let mut i: usize = 0;
    while i < v.len()
        invariant
            v@ == d@,
            i <= v.len(),
            out@ == start + seq!['"'] + json_escape(v@.take(i as int)),
        decreases v.len() - i,
    {
        let c = v[i];
        let ghost before = out@;
        if c == '"' {
            push_char(out, '\\');
            push_char(out, '"');
        } else if c == '\\' {
            push_char(out, '\\');
            push_char(out, '\\');
        } else if (c as u32) < 0x20 {
            let n: u8 = (c as u32) as u8;
            push_char(out, '\\');
            push_char(out, 'u');
            push_char(out, '0');
            push_char(out, '0');
            push_char(out, hex_char(n / 16));
            push_char(out, hex_char(n % 16));
        } else {
            push_char(out, c);
        }
        proof {
            assert(v@.take(i + 1).drop_last() =~= v@.take(i as int));
            assert(out@ =~= before + json_char(c));
        }
        i = i + 1;
    }
    push_char(out, '"');
    assert(v@.take(v@.len() as int) =~= v@);
    assert(out@ =~= old(out)@ + quoted(d@));
}

/// The domains as JSON string literals, separated by commas.
pub open spec fn js_items(ds: Seq<Seq<char>>) -> Seq<char>
    decreases ds.len(),
{
    if ds.len() == 0 {
        Seq::empty()
    } else if ds.len() == 1 {
        quoted(ds[0])
    } else {
        js_items(ds.drop_last()) + seq![','] + quoted(ds.last())
    }
}

/// A JSON array of the domains.
pub open spec fn js_array(ds: Seq<Seq<char>>) -> Seq<char> {
    seq!['['] + js_items(ds) + seq![']']
}

/// Whether `url` starts like a local or internal address, which is never blocked.
pub open spec fn is_local_address(url: Seq<char>) -> bool {
    has_prefix(url, "petal://"@) || has_prefix(url, "file://"@) || has_prefix(url, "localhost"@)
        || has_prefix(url, "127.0.0.1"@)
}

/// A character that ends or splits a URL's host: `/`, `?`, `#`, `:` or `@`.
pub open spec fn is_host_delimiter(c: char) -> bool {
    c == '/' || c == '?' || c == '#' || c == ':' || c == '@'
}

proof fn lemma_scheme_end(scheme: Seq<char>, tail: Seq<char>)
    requires
        !scheme.contains(':'),
    ensures
        find_pat(scheme + scheme_sep() + tail, scheme_sep()) == scheme.len(),
{
    let sep = scheme_sep();
    let url = scheme + sep + tail;
    let sl = scheme.len() as int;
    assert forall|j: int| 0 <= j < sl && j + sep.len() <= url.len() implies #[trigger] url.subrange(j, j + sep.len()) != sep by {
        assert(url.subrange(j, j + sep.len())[0] == scheme[j]);
        if scheme[j] == ':' {
            assert(scheme.contains(':'));
        }
    }
    assert(url.subrange(sl, sl + sep.len()) =~= sep);
    crate::text::lemma_find_pat_from(url, sep, sl);
}

proof fn lemma_no_sep_before_host_end(user: Seq<char>, host: Seq<char>, rest: Seq<char>)
    requires
        user.len() == 0 || user.last() == '@',
        forall|j: int| 0 <= j < user.len() ==> #[trigger] user[j] != '/' && user[j] != '?' && user[j] != '#',
        host.len() > 0,
        forall|j: int| 0 <= j < host.len() ==> !is_host_delimiter(#[trigger] host[j]),
    ensures
        user.len() + host.len() <= find_pat(user + host + rest, scheme_sep()) <= (user + host + rest).len(),
{
    let sep = scheme_sep();
    let t = user + host + rest;
    let uu = user.len() as int;
    let hh = host.len() as int;
    assert forall|j: int| 0 <= j < uu + hh && j + sep.len() <= t.len() implies #[trigger] t.subrange(j, j + sep.len()) != sep by {
        let w = t.subrange(j, j + sep.len());
        if w == sep {
            assert(w[0] == t[j] && w[1] == t[j + 1]);
            if j + 1 < uu {
                assert(t[j + 1] == user[j + 1]);
            } else if j + 1 < uu + hh {
                assert(t[j + 1] == host[j + 1 - uu]);
            } else {
                assert(t[j] == host[hh - 1]);
            }
        }
    }
    crate::text::lemma_find_pat_from(t, sep, uu + hh);
    crate::text::lemma_find_pat_bound(t, sep);
}

proof fn lemma_authority_past_host(user: Seq<char>, host: Seq<char>, rest: Seq<char>, f: int)
    requires
        forall|j: int| 0 <= j < user.len() ==> #[trigger] user[j] != '/' && user[j] != '?' && user[j] != '#',
        forall|j: int| 0 <= j < host.len() ==> !is_host_delimiter(#[trigger] host[j]),
        rest.len() == 0 || rest[0] == '/' || rest[0] == '?' || rest[0] == '#' || rest[0] == ':',
        user.len() + host.len() <= f <= (user + host + rest).len(),
    ensures
        ({
            let r = find_any((user + host + rest).take(f), authority_ends());
            &&& user.len() + host.len() <= r <= f
            &&& r > user.len() + host.len() ==> rest[0] == ':'
        }),
{
    let seg = (user + host + rest).take(f);
    let cs = authority_ends();
    let uu = user.len() as int;
    let hh = host.len() as int;
    crate::text::lemma_find_any_bound(seg, cs);
    let r = find_any(seg, cs);
    assert(cs[0] == '/' && cs[1] == '?' && cs[2] == '#');
    if r < uu + hh {
        assert(cs.contains(seg[r]));
        let i = choose|i: int| 0 <= i < cs.len() && cs[i] == seg[r];
        if r < uu {
            assert(seg[r] == user[r]);
        } else {
            assert(seg[r] == host[r - uu]);
            assert(!is_host_delimiter(host[r - uu]));
        }
    }
    if r > uu + hh {
        assert(seg[uu + hh] == rest[0]);
        assert(!cs.contains(seg[uu + hh]));
        assert(cs.contains(cs[0]) && cs.contains(cs[1]) && cs.contains(cs[2]));
    }
}

proof fn lemma_host_in_authority(url: Seq<char>, a: int, ae: int, user: Seq<char>, host: Seq<char>, rest: Seq<char>)
    requires
        0 <= a <= ae <= url.len(),
        user.len() + host.len() <= ae - a,
        ae - a <= user.len() + host.len() + rest.len(),
        url.subrange(a, ae) == user + (host + rest).take(ae - a - user.len()),
        ae - a > user.len() + host.len() ==> rest[0] == ':',
        user.len() == 0 || user.last() == '@',
        forall|j: int| 0 <= j < host.len() ==> !is_host_delimiter(#[trigger] host[j]),
        !rest.contains('@'),
    ensures
        after_last(url.subrange(a, ae), '@') == user.len(),
        find_char(url.subrange(a + user.len(), ae), ':') == host.len(),
        url.subrange(a + user.len(), a + user.len() + host.len()) == host,
{
    let uu = user.len() as int;
    let hh = host.len() as int;
    let w = (host + rest).take(ae - a - uu);
    assert(!w.contains('@')) by {
        if w.contains('@') {
            let j = choose|j: int| 0 <= j < w.len() && w[j] == '@';
            if j < hh {
                assert(w[j] == host[j]);
            } else {
                assert(w[j] == rest[j - hh]);
                assert(rest.contains('@'));
            }
        }
    }
    crate::text::lemma_after_last_concat(user, w, '@');
    if uu == 0 {
        assert(after_last(user, '@') == 0);
    } else {
        assert(after_last(user, '@') == uu);
    }
    let sub = url.subrange(a + uu, ae);
    assert(sub =~= url.subrange(a, ae).skip(uu));
    assert((user + w).skip(uu) =~= w);
    assert(sub =~= w);
    assert forall|j: int| 0 <= j < hh implies #[trigger] sub[j] != ':' by {
        assert(sub[j] == host[j]);
    }
    if ae - a > uu + hh {
        assert(sub[hh] == rest[0]);
    }
    crate::text::lemma_find_char(sub, ':', hh);
    assert(url.subrange(a + uu, a + uu + hh) =~= sub.take(hh));
    assert(w.take(hh) =~= host);
}

/// The host of `scheme://user@host...` is `host`: it follows the scheme's `://` and any
/// user information up to an `@`, and ends at the first `/`, `?`, `#` or `:` (a port).
#[verifier::spinoff_prover]
pub proof fn law_host_of_address(scheme: Seq<char>, user: Seq<char>, host: Seq<char>, rest: Seq<char>)
    requires
        !scheme.contains(':'),
        user.len() == 0 || user.last() == '@',
        forall|j: int| 0 <= j < user.len() ==> #[trigger] user[j] != '/' && user[j] != '?' && user[j] != '#',
        host.len() > 0,
        forall|j: int| 0 <= j < host.len() ==> !is_host_delimiter(#[trigger] host[j]),
        rest.len() == 0 || rest[0] == '/' || rest[0] == '?' || rest[0] == '#' || rest[0] == ':',
        !rest.contains('@'),
    ensures
        host_of(scheme + "://"@ + user + host + rest) == Some(host),
{
    reveal_strlit("://");
    let sep = scheme_sep();
    assert("://"@ =~= sep);
    let tail = user + host + rest;
    let url = scheme + sep + tail;
    assert(scheme + "://"@ + user + host + rest =~= url);
    let sl = scheme.len() as int;
    let a = sl + 3;
    let uu = user.len() as int;
    let hh = host.len() as int;
    lemma_scheme_end(scheme, tail);
    assert(url.skip(a) =~= tail);
    lemma_no_sep_before_host_end(user, host, rest);
    let f = find_pat(tail, sep);
    let e = a + f;
    assert(after_scheme(url) == (a, e));
    assert(url.subrange(a, e) =~= tail.take(f));
    lemma_authority_past_host(user, host, rest, f);
    let r = find_any(tail.take(f), authority_ends());
    let ae = a + r;
    assert(authority_end(url) == ae);
    assert(url.subrange(a, ae) =~= user + (host + rest).take(r - uu));
    lemma_host_in_authority(url, a, ae, user, host, rest);
    assert(host_range(url) == (a + uu, a + uu + hh));
}

/// Every entry of the block list takes effect: a URL that is not a local address and
/// whose host is an entry without `/`, or a subdomain of one, is blocked, wherever in the
/// list the entry stands.
pub proof fn law_every_domain_entry_blocks(ds: Seq<Seq<char>>, i: int, url: Seq<char>, host: Seq<char>)
    requires
        0 <= i < ds.len(),
        !ds[i].contains('/'),
        !is_local_address(url),
        host_of(url) == Some(host),
        host == ds[i] || has_suffix(host, seq!['.'] + ds[i]),
    ensures
        blocks(ds, url),
{
    let d = ds[i];
    assert forall|j: int| 0 <= j < d.len() implies #[trigger] d[j] != '/' by {
        if d[j] == '/' {
            assert(d.contains('/'));
        }
    }
    crate::text::lemma_find_char(d, '/', d.len() as int);
    assert(entry_covers(ds[i], host, path_of(url)));
    assert(entry_covers(ds[i], host_of(url)->0, path_of(url)));
    assert(exists|j: int| 0 <= j < ds.len() && #[trigger] entry_covers(ds[j], host_of(url)->0, path_of(url)));
}

/// Every path entry `d/p` of the block list takes effect: a URL that is not a local
/// address, whose host is `d` or a subdomain of it and whose path starts with `/p`, is
/// blocked, wherever in the list the entry stands.
pub proof fn law_every_path_entry_blocks(
    ds: Seq<Seq<char>>,
    i: int,
    domain: Seq<char>,
    path: Seq<char>,
    url: Seq<char>,
    host: Seq<char>,
)
    requires
        0 <= i < ds.len(),
        ds[i] == domain + seq!['/'] + path,
        !domain.contains('/'),
        !is_local_address(url),
        host_of(url) == Some(host),
        host == domain || has_suffix(host, seq!['.'] + domain),
        has_prefix(path_of(url), seq!['/'] + path),
    ensures
        blocks(ds, url),
{
    let e = ds[i];
    let k = domain.len() as int;
    assert forall|j: int| 0 <= j < k implies #[trigger] e[j] != '/' by {
        assert(e[j] == domain[j]);
        if domain[j] == '/' {
            assert(domain.contains('/'));
        }
    }
    assert(e[k] == '/');
    crate::text::lemma_find_char(e, '/', k);
    assert(e.take(k) =~= domain);
    assert(e.skip(k) =~= seq!['/'] + path);
    assert(entry_covers(ds[i], host, path_of(url)));
    assert(entry_covers(ds[i], host_of(url)->0, path_of(url)));
    assert(exists|j: int| 0 <= j < ds.len() && #[trigger] entry_covers(ds[j], host_of(url)->0, path_of(url)));
}

/// Only the block list blocks: a URL is blocked only when it is not a local address, has
/// a host, and some entry of the list covers it.
pub proof fn law_blocked_only_by_an_entry(ds: Seq<Seq<char>>, url: Seq<char>)
    requires
        blocks(ds, url),
    ensures
        !is_local_address(url),
        host_of(url) is Some,
        exists|i: int| 0 <= i < ds.len() && #[trigger] entry_covers(ds[i], host_of(url)->0, path_of(url)),
{
}

/// Blocking a domain blocks all of its subdomains: a host under a matching host matches too.
pub proof fn law_subdomains_match(label: Seq<char>, host: Seq<char>, domain: Seq<char>)
    requires
        host_matches(host, domain),
    ensures
        host_matches(label + seq!['.'] + host, domain),
{
    let sub = label + seq!['.'] + host;
    let suf = seq!['.'] + domain;
    if host == domain {
        assert(sub.skip(sub.len() - suf.len()) =~= suf);
    } else {
        assert(sub.skip(sub.len() - suf.len()) =~= host.skip(host.len() - suf.len()));
    }
}

impl Clone for AdblockEngine {
    fn clone(&self) -> (r: Self)
        ensures
            r@ == self@,
    {
        proof {
            use_type_invariant(self);
        }
        let d = self.blocked_domains.clone();
        proof {
            assert forall|i: int| 0 <= i < d@.len() implies d@[i]@ == self.blocked_domains@[i]@ by {
                assert(vstd::pervasive::cloned::<String>(self.blocked_domains@[i], d@[i]));
            }
            assert(strings_view(d@) =~= strings_view(self.blocked_domains@));
        }
        AdblockEngine { blocked_domains: d }
    }
}

} // verus!
