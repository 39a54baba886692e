//! What saving and loading preserve: a saved log, read again, gives the
//! same entries in the same order.

use crate::item::ItemView;
use crate::store::{
    body_lines, decoded, decoded_lines, decoded_log, encoded, escaped, flag_char, hex_digit,
    hex_of, hex_value, is_hex_text, kind_of, kind_tag, known_header, lemma_split_nonempty,
    log_text, magic, nonempty, record_of, records, split_on, strip_cr, text_or_empty, unhex,
};
use crate::text::{
    decimal, is_digit, lemma_decimal_digits, lemma_parse_decimal, lemma_parse_signed_decimal,
    lemma_signed_decimal_chars, parse_i64, parse_u64, parse_usize, signed_decimal,
};
use vstd::prelude::*;

verus! {

/// A text without the separator is one piece.
pub proof fn lemma_split_whole(s: Seq<char>, d: char)
    requires
        forall|k: int| 0 <= k < s.len() ==> s[k] != d,
    ensures
        split_on(s, d) == seq![s],
    decreases s.len(),
{
    if s.len() == 0 {
        assert(s =~= Seq::<char>::empty());
    } else {
        lemma_split_whole(s.drop_last(), d);
        let f = split_on(s.drop_last(), d);
        assert(f.last().push(s.last()) =~= s);
        assert(f.update(f.len() - 1, s) =~= seq![s]);
    }
}

/// The pieces of two texts joined by a separator are the pieces of the
/// first and then those of the second.
pub proof fn lemma_split_join(a: Seq<char>, b: Seq<char>, d: char)
    ensures
        split_on(a + seq![d] + b, d) == split_on(a, d) + split_on(b, d),
    decreases b.len(),
{
    let whole = a + seq![d] + b;
    lemma_split_nonempty(b, d);
    if b.len() == 0 {
        assert(whole.drop_last() =~= a);
        assert(whole.last() == d);
        assert(split_on(a, d).push(Seq::<char>::empty()) =~= split_on(a, d) + split_on(b, d));
    } else {
        let b0 = b.drop_last();
        lemma_split_join(a, b0, d);
        lemma_split_nonempty(b0, d);
        assert(whole.drop_last() =~= a + seq![d] + b0);
        assert(whole.last() == b.last());
        let fa = split_on(a, d);
        let fb = split_on(b0, d);
        if b.last() == d {
            assert((fa + fb).push(Seq::<char>::empty()) =~= fa + fb.push(Seq::<char>::empty()));
        } else {
            assert((fa + fb).last() == fb.last());
            assert((fa + fb).update((fa + fb).len() - 1, fb.last().push(b.last())) =~= fa
                + fb.update(fb.len() - 1, fb.last().push(b.last())));
        }
    }
}

/// The hexadecimal text of `data` has two digits a byte, each the digit of
/// one half of the byte.
pub proof fn lemma_hex_of_index(data: Seq<u8>)
    ensures
        hex_of(data).len() == 2 * data.len(),
        forall|k: int|
            0 <= k < data.len() ==> #[trigger] hex_of(data)[2 * k] == hex_digit(data[k] as int / 16)
                && hex_of(data)[2 * k + 1] == hex_digit(data[k] as int % 16),
    decreases data.len(),
{
    if data.len() > 0 {
        let init = data.drop_last();
        lemma_hex_of_index(init);
        let h = hex_of(data);
        assert forall|k: int| 0 <= k < data.len() implies #[trigger] h[2 * k] == hex_digit(
            data[k] as int / 16,
        ) && h[2 * k + 1] == hex_digit(data[k] as int % 16) by {
            if k < init.len() {
                assert(h[2 * k] == hex_of(init)[2 * k]);
                assert(h[2 * k + 1] == hex_of(init)[2 * k + 1]);
                assert(init[k] == data[k]);
            }
        }
    }
}

/// Every character of a hexadecimal text is a digit or one of `a` to `f`.
pub proof fn lemma_hex_of_chars(data: Seq<u8>)
    ensures
        forall|j: int|
            0 <= j < hex_of(data).len() ==> {
                let c = #[trigger] hex_of(data)[j];
                ('0' <= c && c <= '9') || ('a' <= c && c <= 'f')
            },
    decreases data.len(),
{
    if data.len() > 0 {
        let init = data.drop_last();
        lemma_hex_of_chars(init);
        lemma_hex_of_index(init);
        let h = hex_of(data);
        assert forall|j: int| 0 <= j < h.len() implies {
            let c = #[trigger] h[j];
            ('0' <= c && c <= '9') || ('a' <= c && c <= 'f')
        } by {
            if j < hex_of(init).len() {
                assert(h[j] == hex_of(init)[j]);
            }
        }
    }
}

/// Reading the hexadecimal text of `data` gives `data` back.
pub proof fn lemma_unhex_hex(data: Seq<u8>)
    ensures
        unhex(hex_of(data)) == Some(data),
{
    lemma_hex_of_index(data);
    lemma_hex_of_chars(data);
    let h = hex_of(data);
    assert(is_hex_text(h)) by {
        assert forall|i: int| 0 <= i < h.len() implies hex_value(#[trigger] h[i]) is Some by {}
    }
    let back = unhex(h).unwrap();
    assert(back.len() == data.len());
    assert forall|k: int| 0 <= k < data.len() implies back[k] == data[k] by {
        assert(h[2 * k] == hex_digit(data[k] as int / 16));
        assert(h[2 * k + 1] == hex_digit(data[k] as int % 16));
    }
    assert(back =~= data);
}


/// An entry as it comes back from the log: all as it was, but that a `|` in
/// the content type or the path has become `:`, and an empty one of the two
/// is absent.
pub open spec fn stored(v: ItemView) -> ItemView {
    ItemView {
        mime: nonempty(escaped(text_or_empty(v.mime))),
        file_path: nonempty(escaped(text_or_empty(v.file_path))),
        ..v
    }
}

/// The eight fields of the record of `v`.
pub open spec fn fields_of(v: ItemView) -> Seq<Seq<char>> {
    seq![
        decimal(v.id as nat),
        seq![kind_tag(v.kind)],
        seq![flag_char(v.pinned)],
        signed_decimal(v.ts_ms as int),
        escaped(text_or_empty(v.mime)),
        escaped(text_or_empty(v.file_path)),
        decimal(v.data.len()),
        hex_of(v.data),
    ]
}

/// Whether `s` holds the character `c` nowhere.
pub open spec fn free_of(s: Seq<char>, c: char) -> bool {
    forall|k: int| 0 <= k < s.len() ==> s[k] != c
}

/// No field of a record holds `|`, and none but the content type and the
/// path can hold a line feed.
pub proof fn lemma_fields_clean(v: ItemView)
    ensures
        forall|j: int| 0 <= j < 8 ==> free_of(#[trigger] fields_of(v)[j], '|'),
        forall|j: int| 0 <= j < 8 && j != 4 && j != 5 ==> free_of(#[trigger] fields_of(v)[j], '\n'),
{
    lemma_decimal_digits(v.id as nat);
    lemma_decimal_digits(v.data.len());
    lemma_signed_decimal_chars(v.ts_ms as int);
    lemma_hex_of_chars(v.data);
    let f = fields_of(v);
    assert forall|k: int| 0 <= k < f[0].len() implies f[0][k] != '|' && f[0][k] != '\n' by {
        assert(is_digit(f[0][k]));
    }
    assert forall|k: int| 0 <= k < f[6].len() implies f[6][k] != '|' && f[6][k] != '\n' by {
        assert(is_digit(f[6][k]));
    }
    assert(free_of(f[0], '|') && free_of(f[0], '\n'));
    assert(free_of(f[1], '|') && free_of(f[1], '\n'));
    assert(free_of(f[2], '|') && free_of(f[2], '\n'));
    assert(free_of(f[3], '|') && free_of(f[3], '\n'));
    assert(free_of(f[4], '|'));
    assert(free_of(f[5], '|'));
    assert(free_of(f[6], '|') && free_of(f[6], '\n'));
    assert(free_of(f[7], '|') && free_of(f[7], '\n'));
}

/// The pieces of a record between `|` are its eight fields.
pub proof fn lemma_split_encoded(v: ItemView)
    ensures
        split_on(encoded(v), '|') == fields_of(v),
{
    let f = fields_of(v);
    lemma_fields_clean(v);
    let bar = seq!['|'];
    let p0 = f[0];
    let p1 = p0 + bar + f[1];
    let p2 = p1 + bar + f[2];
    let p3 = p2 + bar + f[3];
    let p4 = p3 + bar + f[4];
    let p5 = p4 + bar + f[5];
    let p6 = p5 + bar + f[6];
    let p7 = p6 + bar + f[7];
    assert(encoded(v) == p7);
    assert(free_of(f[0], '|'));
    assert(free_of(f[1], '|'));
    assert(free_of(f[2], '|'));
    assert(free_of(f[3], '|'));
    assert(free_of(f[4], '|'));
    assert(free_of(f[5], '|'));
    assert(free_of(f[6], '|'));
    assert(free_of(f[7], '|'));
    lemma_split_whole(f[0], '|');
    lemma_split_whole(f[1], '|');
    lemma_split_whole(f[2], '|');
    lemma_split_whole(f[3], '|');
    lemma_split_whole(f[4], '|');
    lemma_split_whole(f[5], '|');
    lemma_split_whole(f[6], '|');
    lemma_split_whole(f[7], '|');
    lemma_split_join(p0, f[1], '|');
    lemma_split_join(p1, f[2], '|');
    lemma_split_join(p2, f[3], '|');
    lemma_split_join(p3, f[4], '|');
    lemma_split_join(p4, f[5], '|');
    lemma_split_join(p5, f[6], '|');
    lemma_split_join(p6, f[7], '|');
    assert(split_on(p7, '|') =~= f);
}

/// Reading the record of an entry gives the entry back as `stored` says,
/// whatever the time of reading.
pub proof fn lemma_decode_encode(v: ItemView, now: i64)
    requires
        v.data.len() <= usize::MAX,
    ensures
        decoded(encoded(v), now) == Some(stored(v)),
{
    lemma_split_encoded(v);
    let f = fields_of(v);
    lemma_parse_decimal(v.id as nat);
    lemma_parse_decimal(v.data.len());
    lemma_parse_signed_decimal(v.ts_ms as int);
    lemma_unhex_hex(v.data);
    assert(parse_u64(f[0]) == Some(v.id));
    assert(kind_of(f[1]) == Some(v.kind));
    assert(parse_i64(f[3]) == Some(v.ts_ms));
    assert(parse_usize(f[6]) == Some(v.data.len() as usize));
    assert(unhex(f[7]) == Some(v.data));
    assert((f[2] == seq!['1']) == v.pinned) by {
        assert(f[2][0] == flag_char(v.pinned));
        assert(seq!['1'][0] == '1');
        if v.pinned {
            assert(f[2] =~= seq!['1']);
        }
    }
    assert(record_of(f[0], f[1], f[2], Some(f[3]), f[4], f[5], f[6], f[7], now) == Some(
        stored(v),
    ));
}


/// Whether an entry can be saved and read back: its payload has a length
/// that a machine can hold, and neither its content type nor its path holds
/// a line feed, which would end the record early.
pub open spec fn savable(v: ItemView) -> bool {
    &&& v.data.len() <= usize::MAX
    &&& free_of(text_or_empty(v.mime), '\n')
    &&& free_of(text_or_empty(v.file_path), '\n')
}

/// Whether every entry of `items` can be saved and read back.
pub open spec fn all_savable(items: Seq<ItemView>) -> bool {
    forall|i: int| 0 <= i < items.len() ==> savable(#[trigger] items[i])
}

/// The records of `items`, one each.
pub open spec fn lines_of(items: Seq<ItemView>) -> Seq<Seq<char>> {
    items.map_values(|v: ItemView| encoded(v))
}

/// The entries of `items` as they come back from the log.
pub open spec fn all_stored(items: Seq<ItemView>) -> Seq<ItemView> {
    items.map_values(|v: ItemView| stored(v))
}

/// Two texts without `c` joined by a character other than `c` hold no `c`.
proof fn lemma_free_join(a: Seq<char>, d: char, b: Seq<char>, c: char)
    requires
        free_of(a, c),
        free_of(b, c),
        d != c,
    ensures
        free_of(a + seq![d] + b, c),
{
    let w = a + seq![d] + b;
    assert forall|k: int| 0 <= k < w.len() implies w[k] != c by {
        if k < a.len() {
            assert(w[k] == a[k]);
        } else if k > a.len() {
            assert(w[k] == b[k - a.len() - 1]);
        }
    }
}

/// The record of a savable entry holds no line feed, and does not end in a
/// carriage return.
pub proof fn lemma_encoded_clean(v: ItemView)
    requires
        savable(v),
    ensures
        free_of(encoded(v), '\n'),
        strip_cr(encoded(v)) == encoded(v),
{
    let f = fields_of(v);
    lemma_fields_clean(v);
    assert(free_of(f[0], '\n'));
    assert(free_of(f[1], '\n'));
    assert(free_of(f[2], '\n'));
    assert(free_of(f[3], '\n'));
    assert(free_of(f[4], '\n'));
    assert(free_of(f[5], '\n'));
    assert(free_of(f[6], '\n'));
    assert(free_of(f[7], '\n'));
    let p1 = f[0] + seq!['|'] + f[1];
    let p2 = p1 + seq!['|'] + f[2];
    let p3 = p2 + seq!['|'] + f[3];
    let p4 = p3 + seq!['|'] + f[4];
    let p5 = p4 + seq!['|'] + f[5];
    let p6 = p5 + seq!['|'] + f[6];
    let p7 = p6 + seq!['|'] + f[7];
    lemma_free_join(f[0], '|', f[1], '\n');
    lemma_free_join(p1, '|', f[2], '\n');
    lemma_free_join(p2, '|', f[3], '\n');
    lemma_free_join(p3, '|', f[4], '\n');
    lemma_free_join(p4, '|', f[5], '\n');
    lemma_free_join(p5, '|', f[6], '\n');
    lemma_free_join(p6, '|', f[7], '\n');
    assert(encoded(v) == p7);
    lemma_hex_of_chars(v.data);
    if f[7].len() > 0 {
        assert(p7.last() == f[7].last());
    } else {
        assert(p7.last() == '|');
    }
}

/// The pieces between line feeds of the records of `items`, followed by a
/// text `t`, are the records and then the pieces of `t`.
pub proof fn lemma_split_records(items: Seq<ItemView>, t: Seq<char>)
    requires
        all_savable(items),
    ensures
        split_on(records(items) + t, '\n') == lines_of(items) + split_on(t, '\n'),
    decreases items.len(),
{
    if items.len() == 0 {
        assert(records(items) + t =~= t);
        assert(lines_of(items) + split_on(t, '\n') =~= split_on(t, '\n'));
    } else {
        let init = items.drop_last();
        let e = encoded(items.last());
        assert(all_savable(init)) by {
            assert forall|i: int| 0 <= i < init.len() implies savable(#[trigger] init[i]) by {
                assert(init[i] == items[i]);
            }
        }
        assert(savable(items[items.len() - 1]));
        lemma_encoded_clean(items.last());
        lemma_split_records(init, e);
        lemma_split_whole(e, '\n');
        lemma_split_join(records(init) + e, t, '\n');
        assert(records(items) + t =~= (records(init) + e) + seq!['\n'] + t);
        assert(lines_of(init) + seq![e] =~= lines_of(items));
    }
}

/// Reading the records of `items` line by line gives the entries back.
pub proof fn lemma_decoded_lines(items: Seq<ItemView>, now: i64)
    requires
        all_savable(items),
    ensures
        decoded_lines(lines_of(items), now) == all_stored(items),
    decreases items.len(),
{
    if items.len() == 0 {
        assert(all_stored(items) =~= Seq::<ItemView>::empty());
    } else {
        let init = items.drop_last();
        assert(all_savable(init)) by {
            assert forall|i: int| 0 <= i < init.len() implies savable(#[trigger] init[i]) by {
                assert(init[i] == items[i]);
            }
        }
        assert(savable(items[items.len() - 1]));
        lemma_decoded_lines(init, now);
        lemma_decode_encode(items.last(), now);
        assert(lines_of(items).drop_last() =~= lines_of(init));
        assert(lines_of(items).last() == encoded(items.last()));
        assert(all_stored(init).push(stored(items.last())) =~= all_stored(items));
    }
}

/// Round trip: the text of the log of savable entries, read again at any
/// time, gives as many entries in the same order, each with the identifier,
/// kind, pinned flag, time and payload it had.
pub proof fn lemma_log_round_trip(items: Seq<ItemView>, now: i64)
    requires
        all_savable(items),
    ensures
        decoded_log(log_text(items), now) == all_stored(items),
        decoded_log(log_text(items), now).len() == items.len(),
        forall|i: int|
            0 <= i < items.len() ==> {
                let back = #[trigger] decoded_log(log_text(items), now)[i];
                &&& back.id == items[i].id
                &&& back.kind == items[i].kind
                &&& back.pinned == items[i].pinned
                &&& back.ts_ms == items[i].ts_ms
                &&& back.data == items[i].data
            },
{
    let head = magic().push('4');
    let none = Seq::<char>::empty();
    let text = log_text(items);
    assert(text =~= head + seq!['\n'] + (records(items) + none));
    lemma_split_join(head, records(items) + none, '\n');
    lemma_split_whole(head, '\n');
    lemma_split_records(items, none);
    lemma_split_whole(none, '\n');
    let pieces = split_on(text, '\n');
    assert(pieces =~= seq![head] + (lines_of(items) + seq![none]));
    assert(pieces[0] == head);
    assert(known_header(head)) by {
        assert(head.subrange(0, 9) =~= magic());
    }
    let body = body_lines(pieces);
    assert(body.len() == items.len() + 1);
    assert forall|k: int| 0 <= k < items.len() implies body[k] == lines_of(items)[k] by {
        assert(pieces[k + 1] == encoded(items[k]));
        assert(savable(items[k]));
        lemma_encoded_clean(items[k]);
    }
    assert(body[items.len() as int] == none);
    assert(body.drop_last() =~= lines_of(items));
    assert(body.last() == none);
    assert(decoded(none, now) is None) by {
        assert(split_on(none, '|').len() == 1);
    }
    lemma_decoded_lines(items, now);
    assert(decoded_lines(body, now) == all_stored(items));
}

} // verus!
