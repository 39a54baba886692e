//! The text form of the daemon's configuration: one `key = value` a line.

use crate::daemon::DaemonConfig;
use crate::store::{split_on, split_spans};
use crate::text::{
    chars_of, find_char, index_of, parse_u64, parse_u64_in, parse_usize, parse_usize_in,
    spells, string_of, trim_string, trimmed,
};
use vstd::prelude::*;

verus! {

/// The first position at or after `from` where `s` holds another character
/// than `c`, or the length of `s`.
pub open spec fn skip_all(s: Seq<char>, c: char, from: int) -> int
    decreases s.len() - from,
{
    if from >= s.len() {
        s.len() as int
    } else if s[from] != c {
        from
    } else {
        skip_all(s, c, from + 1)
    }
}

/// The end of `s[lo..hi]` once every `c` at its end is dropped.
pub open spec fn end_without(s: Seq<char>, c: char, lo: int, hi: int) -> int
    decreases hi - lo,
{
    if hi <= lo {
        lo
    } else if s[hi - 1] != c {
        hi
    } else {
        end_without(s, c, lo, hi - 1)
    }
}

/// `s` without the double quotes at its two ends, however many.
pub open spec fn unquoted(s: Seq<char>) -> Seq<char> {
    let a = skip_all(s, '"', 0);
    let b = end_without(s, '"', a, s.len() as int);
    s.subrange(a, b)
}

/// `s` with its ASCII capitals in lower case.
pub open spec fn ascii_lower(s: Seq<char>) -> Seq<char> {
    s.map_values(
        |c: char|
            if 'A' <= c && c <= 'Z' {
                ((c as u8 + 32) as u8) as char
            } else {
                c
            },
    )
}

/// Whether a value switches a toggle on.
pub open spec fn is_on(v: Seq<char>) -> bool {
    v == "1"@ || v == "true"@ || v == "on"@ || v == "yes"@
}

/// `n`, held between `lo` and `hi`.
pub open spec fn clamped(n: int, lo: int, hi: int) -> int {
    if n < lo {
        lo
    } else if n > hi {
        hi
    } else {
        n
    }
}

/// The key and the value of a line: around the first `=`, each without the
/// white space around it, the key in lower case, the value without quotes.
/// A line without `=` has an empty value.
pub ghost struct Setting {
    pub key: Seq<char>,
    pub value: Seq<char>,
}

/// The setting that a line without the white space around it holds.
pub open spec fn setting_of(l: Seq<char>) -> Setting {
    let e = index_of(l, '=', 0);
    Setting {
        key: ascii_lower(trimmed(l.subrange(0, e))),
        value: if e < l.len() {
            unquoted(trimmed(l.subrange(e + 1, l.len() as int)))
        } else {
            Seq::empty()
        },
    }
}

/// The configuration after one more line. An empty line, a comment
/// (beginning with `#`), an unknown key and a number that does not parse
/// change nothing; numbers are held within the bounds of their key.
pub open spec fn configured(cfg: DaemonConfig, line: Seq<char>) -> DaemonConfig {
    let l = trimmed(line);
    if l.len() == 0 || l[0] == '#' {
        cfg
    } else {
        let s = setting_of(l);
        let v = s.value;
        if s.key == "watch.text"@ {
            DaemonConfig { watch_text: is_on(v), ..cfg }
        } else if s.key == "watch.html"@ {
            DaemonConfig { watch_html: is_on(v), ..cfg }
        } else if s.key == "watch.image"@ {
            DaemonConfig { watch_image: is_on(v), ..cfg }
        } else if s.key == "history.max_items"@ {
            match parse_usize(v) {
                Some(n) => DaemonConfig { max_items: clamped(n as int, 10, 10_000) as usize, ..cfg },
                None => cfg,
            }
        } else if s.key == "history.max_text_bytes"@ {
            match parse_usize(v) {
                Some(n) => DaemonConfig {
                    max_text_bytes: clamped(n as int, 1024, 10_000_000) as usize,
                    ..cfg
                },
                None => cfg,
            }
        } else if s.key == "history.max_image_bytes"@ {
            match parse_usize(v) {
                Some(n) => DaemonConfig {
                    max_image_bytes: clamped(n as int, 10_000, 200_000_000) as usize,
                    ..cfg
                },
                None => cfg,
            }
        } else if s.key == "history.ttl_secs"@ {
            match parse_u64(v) {
                Some(n) => DaemonConfig { ttl_secs: n, ..cfg },
                None => cfg,
            }
        } else if s.key == "cache.images.max_bytes"@ {
            match parse_u64(v) {
                Some(n) => DaemonConfig {
                    cache_images_max_bytes: clamped(n as int, 1_000_000, 10_000_000_000) as u64,
                    ..cfg
                },
                None => cfg,
            }
        } else if s.key == "cache.html.max_bytes"@ {
            match parse_u64(v) {
                Some(n) => DaemonConfig {
                    cache_html_max_bytes: clamped(n as int, 1_000_000, 10_000_000_000) as u64,
                    ..cfg
                },
                None => cfg,
            }
        } else {
            cfg
        }
    }
}

/// The configuration after the lines `lines`, read in order.
pub open spec fn configured_all(cfg: DaemonConfig, lines: Seq<Seq<char>>) -> DaemonConfig
    decreases lines.len(),
{
    if lines.len() == 0 {
        cfg
    } else {
        configured(configured_all(cfg, lines.drop_last()), lines.last())
    }
}

/// The configuration that a text gives when read over `cfg`.
pub open spec fn parsed_config(cfg: DaemonConfig, text: Seq<char>) -> DaemonConfig {
    configured_all(cfg, split_on(text, '\n'))
}


/// The characters of `s` without the double quotes at its two ends.
fn unquote(s: &str) -> (v: Vec<char>)
    ensures
        v@ == unquoted(s@),
{
    let t = chars_of(s);
    let n = t.len();
    let mut a: usize = 0;
    while a < n && t[a] == '"'
        invariant
            a <= n,
            n == t.len(),
            skip_all(t@, '"', 0) == skip_all(t@, '"', a as int),
        decreases n - a,
    {
        a += 1;
    }
    let mut b: usize = n;
    while b > a && t[b - 1] == '"'
        invariant
            a <= b <= n,
            n == t.len(),
            end_without(t@, '"', a as int, n as int) == end_without(t@, '"', a as int, b as int),
        decreases b - a,
    {
        b -= 1;
    }
    let inner = string_of(t.as_slice(), a, b);
    chars_of(inner.as_str())
}

/// The characters of `s` with its ASCII capitals in lower case.
fn lower_ascii(s: &str) -> (v: Vec<char>)
    ensures
        v@ == ascii_lower(s@),
{
    let t = chars_of(s);
    let mut v: Vec<char> = Vec::new();
    let mut i: usize = 0;
    while i < t.len()
        invariant
            i <= t.len(),
            t@ == s@,
            v@ == ascii_lower(s@).subrange(0, i as int),
        decreases t.len() - i,
    {
        let c = t[i];
        let lower = if c >= 'A' && c <= 'Z' {
            ((c as u8) + 32) as char
        } else {
            c
        };
        v.push(lower);
        assert(v@ =~= ascii_lower(s@).subrange(0, i + 1));
        i += 1;
    }
    assert(ascii_lower(s@).subrange(0, i as int) =~= ascii_lower(s@));
    v
}

/// Whether the value `v` switches a toggle on.
fn switches_on(v: &[char]) -> (b: bool)
    ensures
        b == is_on(v@),
{
    spells(v, "1") || spells(v, "true") || spells(v, "on") || spells(v, "yes")
}

/// `n`, held between `lo` and `hi`.
fn clamp_u64(n: u64, lo: u64, hi: u64) -> (r: u64)
    requires
        lo <= hi,
    ensures
        r == clamped(n as int, lo as int, hi as int),
{
    if n < lo {
        lo
    } else if n > hi {
        hi
    } else {
        n
    }
}

/// `n`, held between `lo` and `hi`.
fn clamp_usize(n: usize, lo: usize, hi: usize) -> (r: usize)
    requires
        lo <= hi,
    ensures
        r == clamped(n as int, lo as int, hi as int),
{
    if n < lo {
        lo
    } else if n > hi {
        hi
    } else {
        n
    }
}

/// The configuration `cfg` after the line `line`.
pub fn apply_config_line(cfg: DaemonConfig, line: &str) -> (out: DaemonConfig)
    ensures
        out == configured(cfg, line@),
{
    let l = trim_string(line);
    let lv = chars_of(l.as_str());
    let n = lv.len();
    if n == 0 || lv[0] == '#' {
        return cfg;
    }
    let e = find_char(lv.as_slice(), '=', 0);
    let key_raw = string_of(lv.as_slice(), 0, e);
    let key = lower_ascii(trim_string(key_raw.as_str()).as_str());
    let val: Vec<char> = if e < n {
        let val_raw = string_of(lv.as_slice(), e + 1, n);
        unquote(trim_string(val_raw.as_str()).as_str())
    } else {
        Vec::new()
    };
    assert(key@ == setting_of(lv@).key);
    assert(val@ =~= setting_of(lv@).value);
    assert(val@.subrange(0, val.len() as int) =~= val@);
    let k = key.as_slice();
    let v = val.as_slice();
    let mut out = cfg;
    if spells(k, "watch.text") {
        out.watch_text = switches_on(v);
    } else if spells(k, "watch.html") {
        out.watch_html = switches_on(v);
    } else if spells(k, "watch.image") {
        out.watch_image = switches_on(v);
    } else if spells(k, "history.max_items") {
        if let Some(x) = parse_usize_in(v, 0, v.len()) {
            out.max_items = clamp_usize(x, 10, 10_000);
        }
    } else if spells(k, "history.max_text_bytes") {
        if let Some(x) = parse_usize_in(v, 0, v.len()) {
            out.max_text_bytes = clamp_usize(x, 1024, 10_000_000);
        }
    } else if spells(k, "history.max_image_bytes") {
        if let Some(x) = parse_usize_in(v, 0, v.len()) {
            out.max_image_bytes = clamp_usize(x, 10_000, 200_000_000);
        }
    } else if spells(k, "history.ttl_secs") {
        if let Some(x) = parse_u64_in(v, 0, v.len()) {
            out.ttl_secs = x;
        }
    } else if spells(k, "cache.images.max_bytes") {
        if let Some(x) = parse_u64_in(v, 0, v.len()) {
            out.cache_images_max_bytes = clamp_u64(x, 1_000_000, 10_000_000_000);
        }
    } else if spells(k, "cache.html.max_bytes") {
        if let Some(x) = parse_u64_in(v, 0, v.len()) {
            out.cache_html_max_bytes = clamp_u64(x, 1_000_000, 10_000_000_000);
        }
    }
    out
}

/// The configuration that the text `text` gives when read over `cfg`, line
/// by line.
pub fn apply_config(cfg: DaemonConfig, text: &str) -> (out: DaemonConfig)
    ensures
        out == parsed_config(cfg, text@),
{
    let v = chars_of(text);
    assert(v@.subrange(0, v.len() as int) =~= v@);
    let lines = split_spans(v.as_slice(), 0, v.len(), '\n');
    let ghost pieces = split_on(text@, '\n');
    let mut out = cfg;
    let mut k: usize = 0;
    assert(pieces.subrange(0, 0) =~= Seq::<Seq<char>>::empty());
    while k < lines.len()
        invariant
            k <= lines.len(),
            lines.len() == pieces.len(),
            v@ == text@,
            forall|j: int|
                0 <= j < lines.len() ==> (#[trigger] lines[j]).within(0, v.len() as int)
                    && lines[j].of(v@) == pieces[j],
            out == configured_all(cfg, pieces.subrange(0, k as int)),
        decreases lines.len() - k,
    {
        let sp = lines[k];
        let line = string_of(v.as_slice(), sp.from, sp.to);
        proof {
            let next = pieces.subrange(0, k + 1);
            assert(next.drop_last() =~= pieces.subrange(0, k as int));
            assert(next.last() == pieces[k as int]);
            assert(sp.of(v@) == pieces[k as int]);
        }
        out = apply_config_line(out, line.as_str());
        k += 1;
    }
    assert(pieces.subrange(0, k as int) =~= pieces);
    out
}

/// The configuration that the text `text` gives, starting from the
/// defaults.
pub fn parse_config(text: &str) -> (out: DaemonConfig)
    ensures
        out == parsed_config(
            DaemonConfig {
                watch_text: true,
                watch_html: true,
                watch_image: true,
                max_items: 200,
                max_text_bytes: 100_000,
                max_image_bytes: 2_000_000,
                ttl_secs: 0,
                cache_images_max_bytes: 104_857_600,
                cache_html_max_bytes: 52_428_800,
            },
            text@,
        ),
{
    apply_config(DaemonConfig::default(), text)
}

} // verus!
