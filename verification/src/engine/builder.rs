use vstd::prelude::*;
use crate::network::adblock::{blocks, lowercase, AdblockEngine};
use crate::text::{
    chars_of, find_char, find_char_in, has_prefix, has_suffix, push_char, starts_with, sub_chars,
};

verus! {

/// Decimal digit character for `d < 10`.
pub open spec fn digit_char(d: int) -> char {
    (48 + d) as char
}

/// The decimal representation of `n`, without leading zeros.
pub open spec fn decimal(n: nat) -> Seq<char>
    decreases n,
{
    if n < 10 {
        seq![digit_char(n as int)]
    } else {
        decimal(n / 10).push(digit_char((n % 10) as int))
    }
}

/// Appends the decimal representation of `n` to `s`.
pub fn push_decimal(s: &mut String, n: u128)
    ensures
        final(s)@ == old(s)@ + decimal(n as nat),
    decreases n,
{
    if n >= 10 {
        push_decimal(s, n / 10);
    }
    let d = (n % 10) as u32;
    push_char(s, char_of_digit(d));
    assert(final(s)@ =~= old(s)@ + decimal(n as nat)) by {
        if n >= 10 {
            assert(decimal(n as nat) == decimal((n / 10) as nat).push(digit_char((n % 10) as int)));
        }
    }
}

fn char_of_digit(d: u32) -> (c: char)
    requires
        d < 10,
    ensures
        c == digit_char(d as int),
{
    match d {
        0 => '0',
        1 => '1',
        2 => '2',
        3 => '3',
        4 => '4',
        5 => '5',
        6 => '6',
        7 => '7',
        8 => '8',
        _ => '9',
    }
}

pub open spec fn is_digit(c: char) -> bool {
    '0' <= c <= '9'
}

/// The number written by the decimal digits `s`.
pub open spec fn digits_value(s: Seq<char>) -> nat
    decreases s.len(),
{
    if s.len() == 0 {
        0
    } else {
        digits_value(s.drop_last()) * 10 + (s.last() as u32 - 48) as nat
    }
}

/// `s` without one leading `+`.
pub open spec fn unsigned_digits(s: Seq<char>) -> Seq<char> {
    if s.len() > 0 && s[0] == '+' {
        s.drop_first()
    } else {
        s
    }
}

/// What `u32::from_str` gives for `s`: an optional `+` followed by at least one
/// decimal digit, with a value that fits in `u32`.
pub open spec fn parse_u32_spec(s: Seq<char>) -> Option<u32> {
    let d = unsigned_digits(s);
    if d.len() == 0 || exists|i: int| 0 <= i < d.len() && !is_digit(#[trigger] d[i]) {
        None
    } else if digits_value(d) <= u32::MAX {
        Some(digits_value(d) as u32)
    } else {
        None
    }
}

/// Parses `v[from..to]` as `u32::from_str` does.
pub fn parse_u32(v: &Vec<char>, from: usize, to: usize) -> (r: Option<u32>)
    requires
        from <= to <= v.len(),
    ensures
        r == parse_u32_spec(v@.subrange(from as int, to as int)),
{
    let ghost s = v@.subrange(from as int, to as int);
    let mut start = from;
    if from < to && v[from] == '+' {
        start = from + 1;
    }
    let ghost d = v@.subrange(start as int, to as int);
    proof {
        if from < to && v@[from as int] == '+' {
            assert(d =~= s.drop_first());
        } else {
            assert(d =~= s);
        }
    }
    if start == to {
        return None;
    }
    let mut acc: u64 = 0;
    let mut i = start;
    assert(d.take(0) =~= Seq::<char>::empty());
    while i < to
        invariant
            from <= start <= i <= to <= v.len(),
            d == v@.subrange(start as int, to as int),
            s == v@.subrange(from as int, to as int),
            d == unsigned_digits(s),
            d.len() > 0,
            forall|j: int| 0 <= j < i - start ==> is_digit(#[trigger] d[j]),
            acc == digits_value(d.take(i - start)),
            acc <= u32::MAX,
        decreases to - i,
    {
        let c = v[i];
        if !('0' <= c && c <= '9') {
            proof {
                assert(d[i - start] == c);
                assert(!is_digit(d[i - start]));
                assert(exists|j: int| 0 <= j < d.len() && !is_digit(#[trigger] d[j]));
                assert(parse_u32_spec(s) is None);
            }
            return None;
        }
        let digit = (c as u32 - 48) as u64;
        proof {
            assert(d.take(i - start + 1).drop_last() =~= d.take(i - start));
            assert(d.take(i - start + 1).last() == c);
        }
        let next = acc * 10 + digit;
        if next > 4294967295 {
            proof {
                lemma_digits_value_grows(d, i - start + 1);
                assert(digits_value(d.take(i - start + 1)) == acc * 10 + digit);
            }
            return None;
        }
        acc = next;
        i = i + 1;
    }
    assert(d.take(d.len() as int) =~= d);
    Some(acc as u32)
}

/// A longer digit prefix never has a smaller value.
proof fn lemma_digits_value_grows(d: Seq<char>, k: int)
    requires
        0 <= k <= d.len(),
    ensures
        digits_value(d.take(k)) <= digits_value(d),
    decreases d.len() - k,
{
    if k < d.len() {
        lemma_digits_value_grows(d, k + 1);
        assert(d.take(k + 1).drop_last() =~= d.take(k));
    } else {
        assert(d.take(k) =~= d);
    }
}

/// The pieces of `s` between occurrences of `c`, as `str::split(c)` gives them.
pub open spec fn split_parts(s: Seq<char>, c: char) -> Seq<Seq<char>>
    decreases s.len(),
{
    let i = find_char(s, c);
    if 0 <= i < s.len() {
        seq![s.take(i)] + split_parts(s.skip(i + 1), c)
    } else {
        seq![s]
    }
}

pub open spec fn views_of(parts: Seq<Vec<char>>) -> Seq<Seq<char>> {
    parts.map_values(|p: Vec<char>| p@)
}

/// Splits `v` at every `c`.
pub fn split_chars(v: &Vec<char>, c: char) -> (parts: Vec<Vec<char>>)
    ensures
        views_of(parts@) == split_parts(v@, c),
{
    let n = v.len();
    let mut parts: Vec<Vec<char>> = Vec::new();
    let mut pos: usize = 0;
    let mut done = false;
    assert(v@.skip(0) =~= v@);
    while !done
        invariant
            n == v@.len(),
            pos <= n,
            !done ==> views_of(parts@) + split_parts(v@.skip(pos as int), c) == split_parts(v@, c),
            done ==> views_of(parts@) == split_parts(v@, c),
        decreases n - pos + (if done { 0int } else { 1int }),
    {
        let ghost before = views_of(parts@);
        let i = find_char_in(v, pos, n, c);
        let ghost rest = v@.skip(pos as int);
        proof {
            assert(v@.subrange(pos as int, n as int) =~= rest);
        }
        let piece = sub_chars(v, pos, pos + i);
        parts.push(piece);
        proof {
            assert(views_of(parts@) =~= before.push(piece@));
            assert(piece@ =~= rest.take(i as int));
        }
        if pos + i < n {
            proof {
                assert(rest.skip(i + 1) =~= v@.skip(pos + i + 1));
                assert(split_parts(rest, c) == seq![rest.take(i as int)] + split_parts(rest.skip(i + 1), c));
                assert(before + split_parts(rest, c) =~= views_of(parts@) + split_parts(v@.skip(pos + i + 1), c));
            }
            pos = pos + i + 1;
        } else {
            proof {
                assert(rest.take(i as int) =~= rest);
                assert(split_parts(rest, c) == seq![rest]);
                assert(before + split_parts(rest, c) =~= views_of(parts@));
            }
            done = true;
        }
    }
    parts
}

/// What to do with a directory found in the temporary directory.
#[derive(Debug, Clone, Copy, PartialEq, Eq, Structural)]
pub enum StaleDirVerdict {
    /// Not ours, or still in use.
    Keep,
    /// Left behind by an older version that did not record its process: remove it.
    Remove,
    /// Created by process `pid`: remove it if that process is gone.
    RemoveIfDead(u32),
}

/// Prefix of the names of the browser's throw-away profile directories.
pub open spec fn volatile_prefix() -> Seq<char> {
    "petal_volatile_"@
}

/// The verdict for a directory named `name`, seen from process `current_pid`: names
/// split at `_` into four pieces carry a process id as their third piece; names in three
/// pieces come from an older layout.
pub open spec fn stale_dir_verdict(name: Seq<char>, current_pid: u32) -> StaleDirVerdict {
    if !has_prefix(name, volatile_prefix()) {
        StaleDirVerdict::Keep
    } else {
        let parts = split_parts(name, '_');
        if parts.len() == 4 {
            match parse_u32_spec(parts[2]) {
                Some(pid) => if pid != current_pid {
                    StaleDirVerdict::RemoveIfDead(pid)
                } else {
                    StaleDirVerdict::Keep
                },
                None => StaleDirVerdict::Keep,
            }
        } else if parts.len() == 3 {
            StaleDirVerdict::Remove
        } else {
            StaleDirVerdict::Keep
        }
    }
}

/// Decides what to do with the temporary directory `name`.
pub fn classify_volatile_dir(name: &str, current_pid: u32) -> (r: StaleDirVerdict)
    ensures
        r == stale_dir_verdict(name@, current_pid),
{
    let v = chars_of(name);
    if !starts_with(&v, "petal_volatile_") {
        return StaleDirVerdict::Keep;
    }
    let parts = split_chars(&v, '_');
    if parts.len() == 4 {
        let p = &parts[2];
        let r = parse_u32(p, 0, p.len());
        assert(p@.subrange(0, p@.len() as int) =~= p@);
        assert(views_of(parts@)[2] == p@);
        match r {
            Some(pid) => if pid != current_pid {
                StaleDirVerdict::RemoveIfDead(pid)
            } else {
                StaleDirVerdict::Keep
            },
            None => StaleDirVerdict::Keep,
        }
    } else if parts.len() == 3 {
        StaleDirVerdict::Remove
    } else {
        StaleDirVerdict::Keep
    }
}

/// The name of the throw-away profile directory of process `pid` created at `timestamp` (ns).
pub open spec fn volatile_name(pid: u32, timestamp: u128) -> Seq<char> {
    volatile_prefix() + decimal(pid as nat) + seq!['_'] + decimal(timestamp as nat)
}

pub fn volatile_dir_name(pid: u32, timestamp: u128) -> (r: String)
    ensures
        r@ == volatile_name(pid, timestamp),
{
    let mut s = String::from_str("petal_volatile_");
    push_decimal(&mut s, pid as u128);
    push_char(&mut s, '_');
    push_decimal(&mut s, timestamp);
    s
}


proof fn lemma_decimal(n: nat)
    ensures
        decimal(n).len() > 0,
        forall|i: int| 0 <= i < decimal(n).len() ==> is_digit(#[trigger] decimal(n)[i]),
        digits_value(decimal(n)) == n,
    decreases n,
{
    if n < 10 {
        assert(seq![digit_char(n as int)].drop_last() =~= Seq::<char>::empty());
        assert(digit_char(n as int) as u32 == 48 + n);
        let d = decimal(n);
        assert(d.last() == digit_char(n as int));
        assert(digits_value(d.drop_last()) == 0);
        assert(digits_value(d) == digits_value(d.drop_last()) * 10 + (d.last() as u32 - 48) as nat);
    } else {
        lemma_decimal(n / 10);
        let d = decimal(n);
        assert(d.drop_last() =~= decimal(n / 10));
        assert(digit_char((n % 10) as int) as u32 == 48 + n % 10);
        assert((n / 10) * 10 + n % 10 == n) by (nonlinear_arith);
        assert(d.last() == digit_char((n % 10) as int));
        assert(digits_value(d) == digits_value(d.drop_last()) * 10 + (d.last() as u32 - 48) as nat);
    }
}

/// The decimal text written for a number reads back, as `u32::from_str` reads it, as
/// that number.
pub proof fn law_decimal_parses_back(n: u32)
    ensures
        parse_u32_spec(decimal(n as nat)) == Some(n),
{
    let d = decimal(n as nat);
    lemma_decimal(n as nat);
    assert(is_digit(d[0]));
    assert(unsigned_digits(d) == d);
}

/// A sequence without the separator is one piece.
proof fn lemma_split_single(a: Seq<char>, c: char)
    requires
        !a.contains(c),
    ensures
        split_parts(a, c) == seq![a],
{
    assert forall|j: int| 0 <= j < a.len() implies #[trigger] a[j] != c by {
        if a[j] == c {
            assert(a.contains(c));
        }
    }
    crate::text::lemma_find_char(a, c, a.len() as int);
}

/// Splitting `a + c + b` gives `a` and then the pieces of `b`, when `a` has no `c`.
proof fn lemma_split_first(a: Seq<char>, b: Seq<char>, c: char)
    requires
        !a.contains(c),
    ensures
        split_parts(a + seq![c] + b, c) == seq![a] + split_parts(b, c),
{
    let s = a + seq![c] + b;
    assert forall|j: int| 0 <= j < a.len() implies #[trigger] s[j] != c by {
        assert(s[j] == a[j]);
        if a[j] == c {
            assert(a.contains(c));
        }
    }
    crate::text::lemma_find_char(s, c, a.len() as int);
    assert(s.take(a.len() as int) =~= a);
    assert(s.skip(a.len() as int + 1) =~= b);
}

proof fn lemma_decimal_no_char(n: nat, c: char)
    requires
        !is_digit(c),
    ensures
        !decimal(n).contains(c),
{
    lemma_decimal(n);
    if decimal(n).contains(c) {
        let j = choose|j: int| 0 <= j < decimal(n).len() && decimal(n)[j] == c;
        assert(is_digit(decimal(n)[j]));
    }
}

/// The profile directory that a process creates is recognised by every other process as
/// belonging to it (to be removed once it is gone), and is kept by its own process.
pub proof fn law_own_dir_recognised(pid: u32, timestamp: u128, current_pid: u32)
    ensures
        stale_dir_verdict(volatile_name(pid, timestamp), current_pid) == (if pid != current_pid {
            StaleDirVerdict::RemoveIfDead(pid)
        } else {
            StaleDirVerdict::Keep
        }),
{
    reveal_strlit("petal_volatile_");
    let d1 = decimal(pid as nat);
    let d2 = decimal(timestamp as nat);
    let name = volatile_name(pid, timestamp);
    let petal = seq!['p', 'e', 't', 'a', 'l'];
    let volatile = seq!['v', 'o', 'l', 'a', 't', 'i', 'l', 'e'];
    assert(volatile_prefix() =~= petal + seq!['_'] + volatile + seq!['_']);
    assert(name.take(volatile_prefix().len() as int) =~= volatile_prefix());
    assert(name =~= petal + seq!['_'] + (volatile + seq!['_'] + (d1 + seq!['_'] + d2)));
    assert(!petal.contains('_')) by {
        if petal.contains('_') {
            let j = choose|j: int| 0 <= j < petal.len() && petal[j] == '_';
        }
    }
    assert(!volatile.contains('_')) by {
        if volatile.contains('_') {
            let j = choose|j: int| 0 <= j < volatile.len() && volatile[j] == '_';
        }
    }
    lemma_decimal_no_char(pid as nat, '_');
    lemma_decimal_no_char(timestamp as nat, '_');
    lemma_split_first(petal, volatile + seq!['_'] + (d1 + seq!['_'] + d2), '_');
    lemma_split_first(volatile, d1 + seq!['_'] + d2, '_');
    lemma_split_first(d1, d2, '_');
    lemma_split_single(d2, '_');
    let parts = split_parts(name, '_');
    assert(parts =~= seq![petal, volatile, d1, d2]);
    lemma_decimal(pid as nat);
    assert(d1[0] != '+') by {
        assert(is_digit(d1[0]));
    }
    assert(unsigned_digits(d1) == d1);
}

pub const SCRIPT_HEAD: &'static str = "\n        (function() {\n            const blocked = ";

pub const SCRIPT_AFTER_BLOCKLIST: &'static str = ";\n            function isBlocked(urlStr) {\n                if (!urlStr) return false;\n                try {\n                    let parsed = new URL(urlStr, window.location.href);\n                    let host = parsed.hostname.toLowerCase();\n                    for (let i = 0; i < blocked.length; i++) {\n                        if (host === blocked[i] || host.endsWith('.' + blocked[i])) return true;\n                    }\n                } catch(e) {}\n                return false;\n            }\n\n            const origFetch = window.fetch;\n            window.fetch = async function(...args) {\n                let url = (typeof args[0] === 'string') ? args[0] : (args[0] && args[0].url);\n                if (isBlocked(url)) return Promise.reject(new Error('Petal Adblock: Fetch blocked'));\n                return origFetch.apply(this, args);\n            };\n\n            const origOpen = XMLHttpRequest.prototype.open;\n            XMLHttpRequest.prototype.open = function(...args) {\n                if (isBlocked(args[1])) return;\n                return origOpen.apply(this, args);\n            };\n\n            if (navigator.sendBeacon) {\n                const origBeacon = navigator.sendBeacon;\n                navigator.sendBeacon = function(url, data) {\n                    if (isBlocked(url)) return false;\n                    return origBeacon.call(navigator, url, data);\n                };\n            }\n\n            // Nota t\u{e9}cnica: O MutationObserver \u{e9} \"Best Effort\".\n            // No n\u{ed}vel Bare-Metal do WebView nativo, n\u{e3}o conseguimos interceptar a rede (network layer)\n            // de requisi\u{e7}\u{f5}es de media (img, script src) via HTTPS no cross-platform sem extens\u{f5}es.\n            // Portanto, o download de alguns desses recursos pode iniciar antes da remo\u{e7}\u{e3}o da DOM.\n            new MutationObserver((mutations) => {\n                for (let m of mutations) {\n                    for (let n of m.addedNodes) {\n                        if (n.nodeType === 1) {\n                            if ((n.tagName === 'SCRIPT' || n.tagName === 'IFRAME' || n.tagName === 'IMG') && isBlocked(n.src)) {\n                                n.src = '';\n                                n.remove();\n                            }\n                        }\n                    }\n                }\n            }).observe(document.documentElement || document, { childList: true, subtree: true });\n\n            window.addEventListener('keydown', function(e) {\n                if (e.ctrlKey && e.key.toLowerCase() === 'l') {\n                    e.preventDefault();\n                    window.ipc.postMessage('";

pub const SCRIPT_AFTER_FOCUS_ID: &'static str = "|focus_omnibox|');\n                }\n            });\n\n            window.ipc.postMessage('";

pub const SCRIPT_AFTER_TITLE_ID: &'static str = "|title|' + document.title);\n            new MutationObserver(function(mutations) {\n                window.ipc.postMessage('";

pub const SCRIPT_TAIL: &'static str = "|title|' + document.title);\n            }).observe(\n                document.querySelector('title') || document.head,\n                { subtree: true, characterData: true, childList: true }\n            );\n        })();\n    ";

/// The script injected in every page: it blocks requests to the domains of the JavaScript
/// array `blocklist`, binds Ctrl+L to focusing the omnibox, and reports the page title of
/// tab `tab_id` through the IPC channel.
pub open spec fn init_script(blocklist: Seq<char>, tab_id: u32) -> Seq<char> {
    SCRIPT_HEAD@ + blocklist + SCRIPT_AFTER_BLOCKLIST@ + decimal(tab_id as nat) + SCRIPT_AFTER_FOCUS_ID@
        + decimal(tab_id as nat) + SCRIPT_AFTER_TITLE_ID@ + decimal(tab_id as nat) + SCRIPT_TAIL@
}

pub fn initialization_script(blocked_array_js: &str, tab_id: u32) -> (r: String)
    ensures
        r@ == init_script(blocked_array_js@, tab_id),
{
    let mut s = String::from_str(SCRIPT_HEAD);
    s.append(blocked_array_js);
    s.append(SCRIPT_AFTER_BLOCKLIST);
    push_decimal(&mut s, tab_id as u128);
    s.append(SCRIPT_AFTER_FOCUS_ID);
    push_decimal(&mut s, tab_id as u128);
    s.append(SCRIPT_AFTER_TITLE_ID);
    push_decimal(&mut s, tab_id as u128);
    s.append(SCRIPT_TAIL);
    s
}

/// What the injected script posts: right after the block list's script part, its Ctrl+L
/// handler posts `<id>|focus_omnibox|`; then the script posts `<id>|title|` with the page
/// title, and its title observer posts the same on every change; `<id>` is the tab's
/// number in decimal. The block list stands right after `const blocked = `.
pub proof fn law_init_script_messages(blocklist: Seq<char>, tab_id: u32)
    ensures
        ({
            let s = init_script(blocklist, tab_id);
            let id = decimal(tab_id as nat);
            let post = "window.ipc.postMessage('"@;
            let title = "|title|' + document.title"@;
            let a = (SCRIPT_HEAD@ + blocklist + SCRIPT_AFTER_BLOCKLIST@).len() as int;
            let b = a + id.len() + SCRIPT_AFTER_FOCUS_ID@.len();
            let c = b + id.len() + SCRIPT_AFTER_TITLE_ID@.len();
            &&& has_suffix(SCRIPT_HEAD@, "const blocked = "@)
            &&& has_prefix(s, SCRIPT_HEAD@ + blocklist)
            &&& has_prefix(s.skip(a), id + "|focus_omnibox|'"@)
            &&& has_suffix(s.take(b), post)
            &&& has_prefix(s.skip(b), id + title)
            &&& has_suffix(s.take(c), post)
            &&& has_prefix(s.skip(c), id + title)
            &&& s.len() == c + id.len() + SCRIPT_TAIL@.len()
        }),
{
    reveal_strlit("\n        (function() {\n            const blocked = ");
    reveal_strlit("const blocked = ");
    reveal_strlit("|focus_omnibox|');\n                }\n            });\n\n            window.ipc.postMessage('");
    reveal_strlit("|title|' + document.title);\n            new MutationObserver(function(mutations) {\n                window.ipc.postMessage('");
    reveal_strlit("|title|' + document.title);\n            }).observe(\n                document.querySelector('title') || document.head,\n                { subtree: true, characterData: true, childList: true }\n            );\n        })();\n    ");
    reveal_strlit("window.ipc.postMessage('");
    reveal_strlit("|title|' + document.title");
    reveal_strlit("|focus_omnibox|'");
    let s = init_script(blocklist, tab_id);
    let id = decimal(tab_id as nat);
    let post = "window.ipc.postMessage('"@;
    let title = "|title|' + document.title"@;
    let head = SCRIPT_HEAD@;
    let focus = SCRIPT_AFTER_FOCUS_ID@;
    let tid = SCRIPT_AFTER_TITLE_ID@;
    let tail = SCRIPT_TAIL@;
    let pre = head + blocklist + SCRIPT_AFTER_BLOCKLIST@;
    let a = pre.len() as int;
    let b = a + id.len() + focus.len();
    let c = b + id.len() + tid.len();
    assert(s =~= pre + id + focus + id + tid + id + tail);
    assert(head.skip(head.len() - 16) =~= "const blocked = "@);
    assert(s.take((head + blocklist).len() as int) =~= head + blocklist);
    assert(s.skip(a) =~= id + focus + id + tid + id + tail);
    assert(focus.take(16) =~= "|focus_omnibox|'"@);
    assert(s.skip(a).take((id + "|focus_omnibox|'"@).len() as int) =~= id + "|focus_omnibox|'"@);
    assert(s.take(b) =~= pre + id + focus);
    assert(focus.skip(focus.len() - 24) =~= post);
    assert((pre + id + focus).skip(b - 24) =~= focus.skip(focus.len() - 24));
    assert(s.skip(b) =~= id + tid + id + tail);
    assert(tid.take(title.len() as int) =~= title);
    assert(s.skip(b).take((id + title).len() as int) =~= id + title);
    assert(s.take(c) =~= pre + id + focus + id + tid);
    assert(tid.skip(tid.len() - 24) =~= post);
    assert((pre + id + focus + id + tid).skip(c - 24) =~= tid.skip(tid.len() - 24));
    assert(s.skip(c) =~= id + tail);
    assert(tail.take(title.len() as int) =~= title);
    assert(s.skip(c).take((id + title).len() as int) =~= id + title);
}

/// The IPC message sent when tab `tab_id` has finished loading `url`.
pub fn page_load_message(tab_id: u32, url: &str) -> (r: String)
    ensures
        r@ == decimal(tab_id as nat) + "|url|"@ + url@,
{
    let mut s = String::new();
    push_decimal(&mut s, tab_id as u128);
    s.append("|url|");
    s.append(url);
    s
}

/// Extra arguments for the browser engine: a small script heap and at most two renderer
/// processes, and no GPU when hardware acceleration is off.
pub fn browser_args(hardware_acceleration: bool) -> (r: String)
    ensures
        r@ == BROWSER_ARGS@ + (if hardware_acceleration {
            Seq::<char>::empty()
        } else {
            " --disable-gpu"@
        }),
{
    let mut s = String::from_str(BROWSER_ARGS);
    if !hardware_acceleration {
        s.append(" --disable-gpu");
    }
    s
}

pub const BROWSER_ARGS: &'static str = "--js-flags=\"--lite-mode --max-old-space-size=128 --scavenger_max_new_space_capacity_mb=4\" --renderer-process-limit=2";

/// Where the page is drawn inside the window.
#[derive(Debug, Clone, Copy, PartialEq, Eq, Structural)]
pub struct WebviewBounds {
    pub x: i32,
    pub y: i32,
    pub width: u32,
    pub height: u32,
}

/// The page area of a `width` by `height` window: everything below the browser chrome,
/// or `None` (the whole window) when the window is not taller than the chrome.
pub fn webview_bounds(width: u32, height: u32) -> (r: Option<WebviewBounds>)
    ensures
        height > crate::ui::CHROME_HEIGHT ==> r == Some(
            (WebviewBounds { x: 0, y: 64, width: width, height: (height - 64) as u32 }),
        ),
        height <= crate::ui::CHROME_HEIGHT ==> r is None,
{
    if height > crate::ui::CHROME_HEIGHT {
        Some(WebviewBounds { x: 0, y: 64, width: width, height: height - crate::ui::CHROME_HEIGHT })
    } else {
        None
    }
}

/// Whether the page may navigate to `url`: not when the ad blocker blocks it.
pub fn navigation_allowed(engine: &AdblockEngine, url: &str) -> (allowed: bool)
    ensures
        allowed == !blocks(engine@, lowercase(url@)),
{
    !engine.should_block(url)
}

} // verus!
