//! The durable log: one line of text per entry under a header line, and an
//! in-memory store of entries.

use crate::clock::now_ms;
use crate::item::{views, Item, ItemKind, ItemView};
use crate::text::{
    chars_of, decimal, parse_i64, parse_i64_in, parse_u64, parse_u64_in, parse_usize,
    parse_usize_in, push_char, push_decimal, push_signed_decimal, signed_decimal, string_of,
};
use vstd::prelude::*;
use vstd::string::StringExecFns;

verus! {

/// The letter that stands for a kind in a record.
pub open spec fn kind_tag(kind: ItemKind) -> char {
    match kind {
        ItemKind::Text => 'T',
        ItemKind::Image => 'I',
        ItemKind::Html => 'H',
    }
}

/// The character of a pinned flag in a record.
pub open spec fn flag_char(pinned: bool) -> char {
    if pinned {
        '1'
    } else {
        '0'
    }
}

/// The lower-case hexadecimal digit of `n`.
pub open spec fn hex_digit(n: int) -> char {
    if n < 10 {
        ((48 + n) as u8) as char
    } else {
        ((87 + n) as u8) as char
    }
}

/// `data` in hexadecimal, two lower-case digits a byte.
pub open spec fn hex_of(data: Seq<u8>) -> Seq<char>
    decreases data.len(),
{
    if data.len() == 0 {
        Seq::empty()
    } else {
        hex_of(data.drop_last()).push(hex_digit(data.last() as int / 16)).push(
            hex_digit(data.last() as int % 16),
        )
    }
}

/// A free-text field made safe for a record: each `|` becomes `:`.
pub open spec fn escaped(s: Seq<char>) -> Seq<char> {
    s.map_values(
        |c: char|
            if c == '|' {
                ':'
            } else {
                c
            },
    )
}

/// An optional text, absent read as empty.
pub open spec fn text_or_empty(t: Option<Seq<char>>) -> Seq<char> {
    match t {
        Some(s) => s,
        None => Seq::empty(),
    }
}

/// A text, empty read as absent.
pub open spec fn nonempty(s: Seq<char>) -> Option<Seq<char>> {
    if s.len() == 0 {
        None
    } else {
        Some(s)
    }
}

/// The record of an entry in the current layout: identifier, kind letter,
/// pinned flag, time, content type, path, payload length and payload in
/// hexadecimal, with `|` between them.
pub open spec fn encoded(v: ItemView) -> Seq<char> {
    decimal(v.id as nat) + seq!['|'] + seq![kind_tag(v.kind)] + seq!['|'] + seq![
        flag_char(v.pinned),
    ] + seq!['|'] + signed_decimal(v.ts_ms as int) + seq!['|'] + escaped(text_or_empty(v.mime))
        + seq!['|'] + escaped(text_or_empty(v.file_path)) + seq!['|'] + decimal(v.data.len())
        + seq!['|'] + hex_of(v.data)
}

/// The lower-case hexadecimal digit of the low four bits of `n`.
pub fn nibble_to_hex(n: u8) -> (c: char)
    ensures
        c == hex_digit((n % 16) as int),
{
    let low: u8 = n % 16;
    if low < 10 {
        (48 + low) as char
    } else {
        (87 + low) as char
    }
}

/// Appends `s` to `out` with each `|` turned into `:`.
fn push_escaped(out: &mut String, s: &str)
    ensures
        final(out)@ == old(out)@ + escaped(s@),
{
    let v = chars_of(s);
    let mut i: usize = 0;
    while i < v.len()
        invariant
            i <= v.len(),
            v@ == s@,
            out@ == old(out)@ + escaped(s@).subrange(0, i as int),
        decreases v.len() - i,
    {
        let c = v[i];
        push_char(
            out,
            if c == '|' {
                ':'
            } else {
                c
            },
        );
        assert(escaped(s@).subrange(0, i + 1) =~= escaped(s@).subrange(0, i as int).push(
            escaped(s@)[i as int],
        ));
        assert(out@ =~= old(out)@ + escaped(s@).subrange(0, i + 1));
        i += 1;
    }
    assert(escaped(s@).subrange(0, i as int) =~= escaped(s@));
}

/// Appends `data` in hexadecimal to `out`.
fn push_hex(out: &mut String, data: &[u8])
    ensures
        final(out)@ == old(out)@ + hex_of(data@),
{
    let mut i: usize = 0;
    assert(hex_of(data@.subrange(0, 0)) =~= Seq::<char>::empty());
    while i < data.len()
        invariant
            i <= data.len(),
            out@ == old(out)@ + hex_of(data@.subrange(0, i as int)),
        decreases data.len() - i,
    {
        let b = data[i];
        proof {
            let next = data@.subrange(0, i + 1);
            assert(next.drop_last() =~= data@.subrange(0, i as int));
            assert(next.last() == b);
            assert((b / 16) % 16 == b / 16) by (bit_vector);
        }
        push_char(out, nibble_to_hex(b / 16));
        push_char(out, nibble_to_hex(b % 16));
        assert(out@ =~= old(out)@ + hex_of(data@.subrange(0, i + 1)));
        i += 1;
    }
    assert(data@.subrange(0, i as int) =~= data@);
}

/// Appends the text of an optional string, escaped, to `out`.
fn push_optional(out: &mut String, t: &Option<String>)
    ensures
        final(out)@ == old(out)@ + escaped(text_or_empty(crate::item::opt_text(*t))),
{
    match t {
        Some(s) => push_escaped(out, s.as_str()),
        None => {
            assert(escaped(Seq::<char>::empty()) =~= Seq::<char>::empty());
            assert(out@ =~= old(out)@ + Seq::<char>::empty());
        },
    }
}

/// The pieces of `s` between the separators `d`: always one piece more than
/// there are separators.
pub open spec fn split_on(s: Seq<char>, d: char) -> Seq<Seq<char>>
    decreases s.len(),
{
    if s.len() == 0 {
        seq![Seq::empty()]
    } else {
        let f = split_on(s.drop_last(), d);
        if s.last() == d {
            f.push(Seq::empty())
        } else {
            f.update(f.len() - 1, f.last().push(s.last()))
        }
    }
}

/// The value of a hexadecimal digit of either case.
pub open spec fn hex_value(c: char) -> Option<int> {
    if '0' <= c && c <= '9' {
        Some(c as int - 48)
    } else if 'a' <= c && c <= 'f' {
        Some(c as int - 87)
    } else if 'A' <= c && c <= 'F' {
        Some(c as int - 55)
    } else {
        None
    }
}

/// Whether `s` is an even number of hexadecimal digits.
pub open spec fn is_hex_text(s: Seq<char>) -> bool {
    &&& s.len() % 2 == 0
    &&& forall|i: int| 0 <= i < s.len() ==> hex_value(#[trigger] s[i]) is Some
}

/// The byte that the digits `2k` and `2k + 1` of `s` spell.
pub open spec fn hex_byte(s: Seq<char>, k: int) -> u8 {
    (hex_value(s[2 * k]).unwrap() * 16 + hex_value(s[2 * k + 1]).unwrap()) as u8
}

/// The bytes that `s` spells in hexadecimal, where it is an even number of
/// hexadecimal digits.
pub open spec fn unhex(s: Seq<char>) -> Option<Seq<u8>> {
    if is_hex_text(s) {
        Some(Seq::new((s.len() / 2) as nat, |k: int| hex_byte(s, k)))
    } else {
        None
    }
}

/// The kind that a record's kind field stands for: its first character
/// decides.
pub open spec fn kind_of(f: Seq<char>) -> Option<ItemKind> {
    if f.len() == 0 {
        None
    } else if f[0] == 'T' {
        Some(ItemKind::Text)
    } else if f[0] == 'I' {
        Some(ItemKind::Image)
    } else if f[0] == 'H' {
        Some(ItemKind::Html)
    } else {
        None
    }
}

/// The entry that the fields of a record give. A record without a time
/// field is seen at `now`. The record is void where a number or the kind
/// does not parse, the payload is not hexadecimal, or its length is not the
/// declared one.
pub open spec fn record_of(
    id: Seq<char>,
    kind: Seq<char>,
    pinned: Seq<char>,
    ts: Option<Seq<char>>,
    mime: Seq<char>,
    path: Seq<char>,
    len: Seq<char>,
    hex: Seq<char>,
    now: i64,
) -> Option<ItemView> {
    let time = match ts {
        Some(t) => parse_i64(t),
        None => Some(now),
    };
    if parse_u64(id) is Some && kind_of(kind) is Some && time is Some && parse_usize(len) is Some
        && unhex(hex) is Some && unhex(hex).unwrap().len() == parse_usize(len).unwrap() {
        Some(
            ItemView {
                id: parse_u64(id).unwrap(),
                kind: kind_of(kind).unwrap(),
                data: unhex(hex).unwrap(),
                pinned: pinned == seq!['1'],
                ts_ms: time.unwrap(),
                mime: nonempty(mime),
                file_path: nonempty(path),
            },
        )
    } else {
        None
    }
}

/// The entry that a line of the log holds, by the number of its fields:
/// eight (or more, the rest unread) are the current layout; seven are the
/// layout without a path; six the one without a content type either; five
/// the one without a time, which is then `now`. Any other line is void.
pub open spec fn decoded(line: Seq<char>, now: i64) -> Option<ItemView> {
    let f = split_on(line, '|');
    let none = Seq::<char>::empty();
    if f.len() >= 8 {
        record_of(f[0], f[1], f[2], Some(f[3]), f[4], f[5], f[6], f[7], now)
    } else if f.len() == 7 {
        record_of(f[0], f[1], f[2], Some(f[3]), f[4], none, f[5], f[6], now)
    } else if f.len() == 6 {
        record_of(f[0], f[1], f[2], Some(f[3]), none, none, f[4], f[5], now)
    } else if f.len() == 5 {
        record_of(f[0], f[1], f[2], None, none, none, f[3], f[4], now)
    } else {
        None
    }
}

/// A stretch `from..to` of a text.
#[derive(Clone, Copy)]
pub struct Span {
    pub from: usize,
    pub to: usize,
}

impl Span {
    /// The characters of `s` that the span covers.
    pub open spec fn of(self, s: Seq<char>) -> Seq<char> {
        s.subrange(self.from as int, self.to as int)
    }

    /// Whether the span lies within `from..to`.
    pub open spec fn within(self, from: int, to: int) -> bool {
        from <= self.from <= self.to <= to
    }
}

/// The stretches of `v[from..to]` between the separators `d`.
pub fn split_spans(v: &[char], from: usize, to: usize, d: char) -> (spans: Vec<Span>)
    requires
        from <= to <= v.len(),
    ensures
        spans.len() == split_on(v@.subrange(from as int, to as int), d).len(),
        forall|k: int|
            0 <= k < spans.len() ==> (#[trigger] spans[k]).within(from as int, to as int)
                && spans[k].of(v@) == split_on(v@.subrange(from as int, to as int), d)[k],
{
    let mut spans: Vec<Span> = Vec::new();
    let mut start: usize = from;
    let mut i: usize = from;
    assert(v@.subrange(from as int, from as int) =~= Seq::<char>::empty());
    while i < to
        invariant
            from <= start <= i <= to <= v.len(),
            spans.len() + 1 == split_on(v@.subrange(from as int, i as int), d).len(),
            forall|k: int|
                0 <= k < spans.len() ==> (#[trigger] spans[k]).within(from as int, to as int)
                    && spans[k].of(v@) == split_on(v@.subrange(from as int, i as int), d)[k],
            v@.subrange(start as int, i as int) == split_on(
                v@.subrange(from as int, i as int),
                d,
            ).last(),
        decreases to - i,
    {
        let ghost pre = v@.subrange(from as int, i as int);
        let ghost next = v@.subrange(from as int, i + 1);
        let ghost f = split_on(pre, d);
        proof {
            assert(next.drop_last() =~= pre);
            assert(next.last() == v@[i as int]);
        }
        if v[i] == d {
            spans.push(Span { from: start, to: i });
            start = i + 1;
            proof {
                assert(split_on(next, d) == f.push(Seq::empty()));
                assert(v@.subrange(start as int, i + 1) =~= Seq::<char>::empty());
                assert forall|k: int| 0 <= k < spans.len() implies (#[trigger] spans[k]).within(
                    from as int,
                    to as int,
                ) && spans[k].of(v@) == split_on(next, d)[k] by {
                    if k < spans.len() - 1 {
                        assert(split_on(next, d)[k] == f[k]);
                    }
                }
            }
        } else {
            proof {
                assert(split_on(next, d) == f.update(f.len() - 1, f.last().push(v@[i as int])));
                assert(v@.subrange(start as int, i + 1) =~= v@.subrange(
                    start as int,
                    i as int,
                ).push(v@[i as int]));
                assert forall|k: int| 0 <= k < spans.len() implies (#[trigger] spans[k]).within(
                    from as int,
                    to as int,
                ) && spans[k].of(v@) == split_on(next, d)[k] by {
                    assert(split_on(next, d)[k] == f[k]);
                }
            }
        }
        i += 1;
    }
    spans.push(Span { from: start, to });
    spans
}

/// The value of the hexadecimal digit `c`, of either case.
pub fn hex_val(c: char) -> (v: Option<u8>)
    ensures
        match v {
            Some(n) => hex_value(c) == Some(n as int) && n < 16,
            None => hex_value(c) is None,
        },
{
    if c >= '0' && c <= '9' {
        Some((c as u32 - 48) as u8)
    } else if c >= 'a' && c <= 'f' {
        Some((c as u32 - 87) as u8)
    } else if c >= 'A' && c <= 'F' {
        Some((c as u32 - 55) as u8)
    } else {
        None
    }
}

/// The bytes that `v[from..to]` spells in hexadecimal.
pub fn unhex_in(v: &[char], from: usize, to: usize) -> (bytes: Option<Vec<u8>>)
    requires
        from <= to <= v.len(),
    ensures
        match bytes {
            Some(b) => unhex(v@.subrange(from as int, to as int)) == Some(b@),
            None => unhex(v@.subrange(from as int, to as int)) is None,
        },
{
    let ghost s = v@.subrange(from as int, to as int);
    if (to - from) % 2 != 0 {
        return None;
    }
    let mut out: Vec<u8> = Vec::new();
    let mut i: usize = from;
    while i < to
        invariant
            from <= i <= to <= v.len(),
            (to - from) % 2 == 0,
            (i - from) % 2 == 0,
            s == v@.subrange(from as int, to as int),
            out.len() == (i - from) / 2,
            forall|j: int| 0 <= j < i - from ==> hex_value(#[trigger] s[j]) is Some,
            forall|k: int| 0 <= k < out.len() ==> #[trigger] out[k] == hex_byte(s, k),
        decreases to - i,
    {
        assert(s[i - from] == v@[i as int]);
        assert(s[i - from + 1] == v@[i + 1]);
        let hi = match hex_val(v[i]) {
            Some(h) => h,
            None => {
                return None;
            },
        };
        let lo = match hex_val(v[i + 1]) {
            Some(l) => l,
            None => {
                return None;
            },
        };
        out.push(hi * 16 + lo);
        i += 2;
    }
    assert(out@ =~= unhex(s).unwrap());
    Some(out)
}

/// The bytes that `s` spells in hexadecimal.
pub fn hex_to_bytes(s: &str) -> (bytes: Option<Vec<u8>>)
    ensures
        match bytes {
            Some(b) => unhex(s@) == Some(b@),
            None => unhex(s@) is None,
        },
{
    let v = chars_of(s);
    assert(v@.subrange(0, v.len() as int) =~= v@);
    unhex_in(v.as_slice(), 0, v.len())
}

/// The text of an optional span, absent read as empty.
pub open spec fn span_text(sp: Option<Span>, s: Seq<char>) -> Seq<char> {
    match sp {
        Some(x) => x.of(s),
        None => Seq::empty(),
    }
}

/// The text of an optional span.
pub open spec fn span_opt(sp: Option<Span>, s: Seq<char>) -> Option<Seq<char>> {
    match sp {
        Some(x) => Some(x.of(s)),
        None => None,
    }
}

/// The view of an optional entry.
pub open spec fn opt_view(it: Option<Item>) -> Option<ItemView> {
    match it {
        Some(x) => Some(x@),
        None => None,
    }
}

/// The string that a span of `v` holds, or none for an empty or absent span.
fn optional_text(v: &[char], sp: Option<Span>) -> (t: Option<String>)
    requires
        sp is Some ==> sp.unwrap().within(0, v.len() as int),
    ensures
        crate::item::opt_text(t) == nonempty(span_text(sp, v@)),
{
    match sp {
        Some(x) => if x.from < x.to {
            Some(string_of(v, x.from, x.to))
        } else {
            None
        },
        None => None,
    }
}

/// Builds the entry that the given fields of `v` spell.
fn build_record(
    v: &[char],
    id: Span,
    kind: Span,
    pinned: Span,
    ts: Option<Span>,
    mime: Option<Span>,
    path: Option<Span>,
    len: Span,
    hex: Span,
    now: i64,
) -> (it: Option<Item>)
    requires
        id.within(0, v.len() as int),
        kind.within(0, v.len() as int),
        pinned.within(0, v.len() as int),
        ts is Some ==> ts.unwrap().within(0, v.len() as int),
        mime is Some ==> mime.unwrap().within(0, v.len() as int),
        path is Some ==> path.unwrap().within(0, v.len() as int),
        len.within(0, v.len() as int),
        hex.within(0, v.len() as int),
    ensures
        opt_view(it) == record_of(
            id.of(v@),
            kind.of(v@),
            pinned.of(v@),
            span_opt(ts, v@),
            span_text(mime, v@),
            span_text(path, v@),
            len.of(v@),
            hex.of(v@),
            now,
        ),
{
    let id_n = match parse_u64_in(v, id.from, id.to) {
        Some(n) => n,
        None => {
            return None;
        },
    };
    if kind.from == kind.to {
        return None;
    }
    let kc = v[kind.from];
    assert(kind.of(v@)[0] == kc);
    let kind_k = if kc == 'T' {
        ItemKind::Text
    } else if kc == 'I' {
        ItemKind::Image
    } else if kc == 'H' {
        ItemKind::Html
    } else {
        return None;
    };
    let is_pinned = pinned.to - pinned.from == 1 && v[pinned.from] == '1';
    proof {
        let p = pinned.of(v@);
        if is_pinned {
            assert(p =~= seq!['1']);
        } else if p.len() == 1 {
            assert(p[0] == v@[pinned.from as int]);
            assert(seq!['1'][0] == '1');
        } else {
            assert(seq!['1'].len() == 1);
        }
    }
    let time = match ts {
        Some(sp) => match parse_i64_in(v, sp.from, sp.to) {
            Some(t) => t,
            None => {
                return None;
            },
        },
        None => now,
    };
    let len_n = match parse_usize_in(v, len.from, len.to) {
        Some(n) => n,
        None => {
            return None;
        },
    };
    let data = match unhex_in(v, hex.from, hex.to) {
        Some(d) => d,
        None => {
            return None;
        },
    };
    if data.len() != len_n {
        return None;
    }
    let mime_t = optional_text(v, mime);
    let path_t = optional_text(v, path);
    Some(
        Item {
            id: id_n,
            kind: kind_k,
            data,
            pinned: is_pinned,
            ts_ms: time,
            mime: mime_t,
            file_path: path_t,
        },
    )
}

/// Reads `v[from..to]` as a record, seen at `now` where it holds no time.
pub fn decode_in(v: &[char], from: usize, to: usize, now: i64) -> (it: Option<Item>)
    requires
        from <= to <= v.len(),
    ensures
        opt_view(it) == decoded(v@.subrange(from as int, to as int), now),
{
    let f = split_spans(v, from, to, '|');
    let n = f.len();
    assert(forall|k: int| 0 <= k < n ==> (#[trigger] f[k]).within(from as int, to as int));
    if n >= 8 {
        build_record(v, f[0], f[1], f[2], Some(f[3]), Some(f[4]), Some(f[5]), f[6], f[7], now)
    } else if n == 7 {
        build_record(v, f[0], f[1], f[2], Some(f[3]), Some(f[4]), None, f[5], f[6], now)
    } else if n == 6 {
        build_record(v, f[0], f[1], f[2], Some(f[3]), None, None, f[4], f[5], now)
    } else if n == 5 {
        build_record(v, f[0], f[1], f[2], None, None, None, f[3], f[4], now)
    } else {
        None
    }
}

/// What every header line of the log begins with, before the digit of the
/// layout's version.
pub open spec fn magic() -> Seq<char> {
    seq!['C', 'L', 'I', 'P', 'D', 'A', 'S', 'H', 'v']
}

/// Whether `first` begins as the header of one of the four known versions.
pub open spec fn known_header(first: Seq<char>) -> bool {
    &&& first.len() >= 10
    &&& first.subrange(0, 9) == magic()
    &&& '1' <= first[9] && first[9] <= '4'
}

/// A line without the carriage return that ends it, if one does.
pub open spec fn strip_cr(line: Seq<char>) -> Seq<char> {
    if line.len() > 0 && line.last() == '\r' {
        line.drop_last()
    } else {
        line
    }
}

/// The lines under the header, given the pieces of the whole text between
/// line feeds. A line that a line feed ends loses a carriage return before
/// it; what follows the last line feed is taken as it stands.
pub open spec fn body_lines(pieces: Seq<Seq<char>>) -> Seq<Seq<char>> {
    Seq::new(
        (pieces.len() - 1) as nat,
        |k: int|
            if k + 2 < pieces.len() {
                strip_cr(pieces[k + 1])
            } else {
                pieces[k + 1]
            },
    )
}

/// The entries that the lines hold, in order; a void line holds none.
pub open spec fn decoded_lines(lines: Seq<Seq<char>>, now: i64) -> Seq<ItemView>
    decreases lines.len(),
{
    if lines.len() == 0 {
        Seq::empty()
    } else {
        let rest = decoded_lines(lines.drop_last(), now);
        match decoded(lines.last(), now) {
            Some(v) => rest.push(v),
            None => rest,
        }
    }
}

/// The entries that the text of a log holds. A text that does not begin
/// with a known header holds none; under a known header each line is read
/// by itself, and a void line is passed over.
pub open spec fn decoded_log(text: Seq<char>, now: i64) -> Seq<ItemView> {
    let pieces = split_on(text, '\n');
    if known_header(pieces[0]) {
        decoded_lines(body_lines(pieces), now)
    } else {
        Seq::empty()
    }
}

/// The records of `items`, each ended by a line feed.
pub open spec fn records(items: Seq<ItemView>) -> Seq<char>
    decreases items.len(),
{
    if items.len() == 0 {
        Seq::empty()
    } else {
        records(items.drop_last()) + encoded(items.last()) + seq!['\n']
    }
}

/// The text of the log of `items`: the header of the current version, then
/// one record a line.
pub open spec fn log_text(items: Seq<ItemView>) -> Seq<char> {
    magic().push('4').push('\n') + records(items)
}

/// `split_on` gives at least one piece.
pub proof fn lemma_split_nonempty(s: Seq<char>, d: char)
    ensures
        split_on(s, d).len() >= 1,
    decreases s.len(),
{
    if s.len() > 0 {
        lemma_split_nonempty(s.drop_last(), d);
    }
}

/// Whether the stretch `sp` of `v` begins as a known header.
fn is_known_header(v: &[char], sp: Span) -> (b: bool)
    requires
        sp.within(0, v.len() as int),
    ensures
        b == known_header(sp.of(v@)),
{
    if sp.to - sp.from < 10 {
        return false;
    }
    let a = sp.from;
    let ghost f = sp.of(v@);
    assert(forall|k: int| 0 <= k < 10 ==> f[k] == v@[a + k]);
    let b = v[a] == 'C' && v[a + 1] == 'L' && v[a + 2] == 'I' && v[a + 3] == 'P' && v[a + 4]
        == 'D' && v[a + 5] == 'A' && v[a + 6] == 'S' && v[a + 7] == 'H' && v[a + 8] == 'v';
    proof {
        if b {
            assert(f.subrange(0, 9) =~= magic());
        } else {
            assert(forall|k: int| 0 <= k < 9 ==> f.subrange(0, 9)[k] == f[k]);
            assert(magic()[0] == 'C' && magic()[1] == 'L' && magic()[2] == 'I' && magic()[3]
                == 'P' && magic()[4] == 'D' && magic()[5] == 'A' && magic()[6] == 'S'
                && magic()[7] == 'H' && magic()[8] == 'v');
        }
    }
    b && v[a + 9] >= '1' && v[a + 9] <= '4'
}

/// A handle on the file that holds the durable log.
pub struct FileStore {
    path: String,
}

impl FileStore {
    /// A store for the file at `path`.
    pub fn new(path: &str) -> (store: Self)
        ensures
            store.path_view() == path@,
    {
        FileStore { path: String::from_str(path) }
    }

    /// The path this store was made for.
    pub closed spec fn path_view(&self) -> Seq<char> {
        self.path@
    }

    /// The path this store was made for.
    pub fn path(&self) -> (p: &str)
        ensures
            p@ == self.path_view(),
    {
        self.path.as_str()
    }

    /// The record of `it` in the current layout.
    pub fn encode_item(it: &Item) -> (line: String)
        ensures
            line@ == encoded(it@),
    {
        let mut out = String::new();
        push_decimal(&mut out, it.id);
        push_char(&mut out, '|');
        push_char(
            &mut out,
            match it.kind {
                ItemKind::Text => 'T',
                ItemKind::Image => 'I',
                ItemKind::Html => 'H',
            },
        );
        push_char(&mut out, '|');
        push_char(
            &mut out,
            if it.pinned {
                '1'
            } else {
                '0'
            },
        );
        push_char(&mut out, '|');
        push_signed_decimal(&mut out, it.ts_ms);
        push_char(&mut out, '|');
        push_optional(&mut out, &it.mime);
        push_char(&mut out, '|');
        push_optional(&mut out, &it.file_path);
        push_char(&mut out, '|');
        push_decimal(&mut out, it.data.len() as u64);
        push_char(&mut out, '|');
        push_hex(&mut out, it.data.as_slice());
        assert(out@ =~= encoded(it@));
        out
    }

    /// Reads `line` as a record, seen at `now` where it holds no time.
    pub fn decode_item_at(line: &str, now: i64) -> (it: Option<Item>)
        ensures
            opt_view(it) == decoded(line@, now),
    {
        let v = chars_of(line);
        assert(v@.subrange(0, v.len() as int) =~= v@);
        decode_in(v.as_slice(), 0, v.len(), now)
    }

    /// Reads `line` as a record, seen at the time the clock gives where it
    /// holds no time.
    pub fn decode_item(line: &str) -> (it: Option<Item>)
        ensures
            exists|now: i64| now >= 0 && opt_view(it) == #[trigger] decoded(line@, now),
    {
        let now = now_ms();
        let it = Self::decode_item_at(line, now);
        assert(now >= 0 && opt_view(it) == decoded(line@, now));
        it
    }

    /// The text of the log of `items`.
    pub fn encode_log(items: &[Item]) -> (text: String)
        ensures
            text@ == log_text(views(items@)),
    {
        let mut out = String::from_str("CLIPDASHv4\n");
        proof {
            reveal_strlit("CLIPDASHv4\n");
            assert(out@ =~= magic().push('4').push('\n'));
            assert(views(items@).subrange(0, 0) =~= Seq::<ItemView>::empty());
        }
        let mut i: usize = 0;
        while i < items.len()
            invariant
                i <= items.len(),
                out@ == magic().push('4').push('\n') + records(views(items@).subrange(0, i as int)),
            decreases items.len() - i,
        {
            let line = Self::encode_item(&items[i]);
            proof {
                let next = views(items@).subrange(0, i + 1);
                assert(next.drop_last() =~= views(items@).subrange(0, i as int));
                assert(next.last() == items@[i as int]@);
            }
            out.append(line.as_str());
            push_char(&mut out, '\n');
            assert(out@ =~= magic().push('4').push('\n') + records(
                views(items@).subrange(0, i + 1),
            ));
            i += 1;
        }
        assert(views(items@).subrange(0, i as int) =~= views(items@));
        out
    }

    /// The entries that the text of a log holds, those without a time seen
    /// at `now`.
    pub fn decode_log_at(text: &str, now: i64) -> (items: Vec<Item>)
        ensures
            views(items@) == decoded_log(text@, now),
    {
        let v = chars_of(text);
        assert(v@.subrange(0, v.len() as int) =~= v@);
        let lines = split_spans(v.as_slice(), 0, v.len(), '\n');
        let ghost pieces = split_on(text@, '\n');
        let mut items: Vec<Item> = Vec::new();
        proof {
            lemma_split_nonempty(text@, '\n');
            assert(lines[0].within(0, v.len() as int));
        }
        if !is_known_header(v.as_slice(), lines[0]) {
            assert(views(items@) =~= Seq::<ItemView>::empty());
            return items;
        }
        let n = lines.len();
        let mut k: usize = 1;
        proof {
            assert(body_lines(pieces).subrange(0, 0) =~= Seq::<Seq<char>>::empty());
            assert(views(items@) =~= Seq::<ItemView>::empty());
        }
        while k < n
            invariant
                1 <= k <= n,
                n == lines.len(),
                n == pieces.len(),
                v@ == text@,
                pieces == split_on(text@, '\n'),
                forall|j: int|
                    0 <= j < n ==> (#[trigger] lines[j]).within(0, v.len() as int) && lines[j].of(
                        v@,
                    ) == pieces[j],
                views(items@) == decoded_lines(body_lines(pieces).subrange(0, k - 1), now),
            decreases n - k,
        {
            let sp = lines[k];
            let ghost piece = pieces[k as int];
            assert(sp.of(v@) == piece);
            let to = if k + 1 < n && sp.from < sp.to && v[sp.to - 1] == '\r' {
                sp.to - 1
            } else {
                sp.to
            };
            proof {
                let line = body_lines(pieces)[k - 1];
                if sp.from < sp.to {
                    assert(piece.last() == v@[sp.to - 1]);
                }
                assert(v@.subrange(sp.from as int, to as int) =~= line);
                let next = body_lines(pieces).subrange(0, k as int);
                assert(next.drop_last() =~= body_lines(pieces).subrange(0, k - 1));
                assert(next.last() == line);
            }
            let ghost before = views(items@);
            match decode_in(v.as_slice(), sp.from, to, now) {
                Some(it) => {
                    items.push(it);
                    assert(views(items@) =~= before.push(it@));
                },
                None => {},
            }
            k += 1;
        }
        assert(body_lines(pieces).subrange(0, n - 1) =~= body_lines(pieces));
        items
    }

    /// The entries that the text of a log holds, those without a time seen
    /// at the time the clock gives.
    pub fn decode_log(text: &str) -> (items: Vec<Item>)
        ensures
            exists|now: i64| now >= 0 && views(items@) == #[trigger] decoded_log(text@, now),
    {
        let now = now_ms();
        let items = Self::decode_log_at(text, now);
        assert(now >= 0 && views(items@) == decoded_log(text@, now));
        items
    }
}

/// Entries held in memory, in the order they were put.
pub struct Store {
    items: Vec<Item>,
}

impl View for Store {
    type V = Seq<ItemView>;

    closed spec fn view(&self) -> Seq<ItemView> {
        views(self.items@)
    }
}

impl Default for Store {
    fn default() -> (s: Self)
        ensures
            s@ == Seq::<ItemView>::empty(),
    {
        Store::new_in_memory()
    }
}

impl Store {
    /// An empty store.
    pub fn new_in_memory() -> (s: Self)
        ensures
            s@ == Seq::<ItemView>::empty(),
    {
        let s = Store { items: Vec::new() };
        assert(s@ =~= Seq::<ItemView>::empty());
        s
    }

    /// Puts `item` after those held.
    pub fn put(&mut self, item: Item)
        ensures
            final(self)@ == old(self)@.push(item@),
    {
        self.items.push(item);
        assert(self@ =~= old(self)@.push(item@));
    }

    /// The entries, in the order they were put.
    pub fn all(&self) -> (items: &[Item])
        ensures
            views(items@) == self@,
    {
        self.items.as_slice()
    }
}

} // verus!
