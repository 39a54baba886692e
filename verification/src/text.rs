//! Text helpers: characters of a string, decimal numbers, searching.

use vstd::prelude::*;
use vstd::string::StringExecFns;
use vstd::utf8::{decode_utf8, valid_utf8};

verus! {

/// The characters of `s`, in order.
pub fn chars_of(s: &str) -> (v: Vec<char>)
    ensures
        v@ == s@,
{
    let mut v: Vec<char> = Vec::new();
    for c in it: s.chars()
        invariant
            v@ == it.seq().take(it.index() as int),
    {
        v.push(c);
    }
    v
}

/// The character of the decimal digit `d`.
pub open spec fn digit_char(d: int) -> char {
    ((48 + d) as u8) as char
}

/// `n` in decimal: no sign, no leading zero but for zero itself.
pub open spec fn decimal(n: nat) -> Seq<char>
    decreases n,
{
    if n < 10 {
        seq![digit_char(n as int)]
    } else {
        decimal(n / 10).push(digit_char((n % 10) as int))
    }
}

/// `i` in decimal, with `-` in front of a negative number.
pub open spec fn signed_decimal(i: int) -> Seq<char> {
    if i < 0 {
        seq!['-'] + decimal((-i) as nat)
    } else {
        decimal(i as nat)
    }
}

fn digit_str(d: u8) -> (s: &'static str)
    requires
        d < 10,
    ensures
        s@ == seq![digit_char(d as int)],
{
    proof {
        reveal_strlit("0");
        reveal_strlit("1");
        reveal_strlit("2");
        reveal_strlit("3");
        reveal_strlit("4");
        reveal_strlit("5");
        reveal_strlit("6");
        reveal_strlit("7");
        reveal_strlit("8");
        reveal_strlit("9");
    }
    let s = match d {
        0 => "0",
        1 => "1",
        2 => "2",
        3 => "3",
        4 => "4",
        5 => "5",
        6 => "6",
        7 => "7",
        8 => "8",
        _ => "9",
    };
    assert(s@ =~= seq![digit_char(d as int)]);
    s
}

/// Appends `n` in decimal to `out`.
pub fn push_decimal(out: &mut String, n: u64)
    ensures
        final(out)@ == old(out)@ + decimal(n as nat),
    decreases n,
{
    if n >= 10 {
        push_decimal(out, n / 10);
    }
    out.append(digit_str((n % 10) as u8));
    assert(out@ =~= old(out)@ + decimal(n as nat));
}

/// Appends `i` in decimal to `out`, with `-` in front of a negative number.
pub fn push_signed_decimal(out: &mut String, i: i64)
    ensures
        final(out)@ == old(out)@ + signed_decimal(i as int),
{
    if i < 0 {
        proof {
            reveal_strlit("-");
        }
        out.append("-");
        let magnitude: u64 = ((-(i + 1)) as u64) + 1;
        push_decimal(out, magnitude);
        assert(out@ =~= old(out)@ + signed_decimal(i as int));
    } else {
        push_decimal(out, i as u64);
    }
}


/// Whether `c` is a decimal digit.
pub open spec fn is_digit(c: char) -> bool {
    '0' <= c && c <= '9'
}

/// Whether every character of `s` is a decimal digit.
pub open spec fn all_digits(s: Seq<char>) -> bool {
    forall|i: int| 0 <= i < s.len() ==> is_digit(#[trigger] s[i])
}

/// The number that the digits of `s` spell, most significant first.
pub open spec fn digits_value(s: Seq<char>) -> nat
    decreases s.len(),
{
    if s.len() == 0 {
        0
    } else {
        digits_value(s.drop_last()) * 10 + (s.last() as nat - 48) as nat
    }
}

/// An unsigned decimal number: an optional `+`, then one digit or more.
pub open spec fn parse_unsigned(s: Seq<char>) -> Option<nat> {
    let d = if s.len() > 0 && s[0] == '+' {
        s.subrange(1, s.len() as int)
    } else {
        s
    };
    if d.len() > 0 && all_digits(d) {
        Some(digits_value(d))
    } else {
        None
    }
}

/// A signed decimal number: an optional `+` or `-`, then one digit or more.
pub open spec fn parse_signed(s: Seq<char>) -> Option<int> {
    if s.len() > 0 && s[0] == '-' {
        let d = s.subrange(1, s.len() as int);
        if d.len() > 0 && all_digits(d) {
            Some(-(digits_value(d) as int))
        } else {
            None
        }
    } else {
        match parse_unsigned(s) {
            Some(n) => Some(n as int),
            None => None,
        }
    }
}

/// An unsigned decimal number that is at most `max`.
pub open spec fn parse_up_to(s: Seq<char>, max: nat) -> Option<nat> {
    match parse_unsigned(s) {
        Some(n) => if n <= max {
            Some(n)
        } else {
            None
        },
        None => None,
    }
}

/// `s` as a `u64`, where it spells one.
pub open spec fn parse_u64(s: Seq<char>) -> Option<u64> {
    match parse_up_to(s, u64::MAX as nat) {
        Some(n) => Some(n as u64),
        None => None,
    }
}

/// `s` as a `usize`, where it spells one.
pub open spec fn parse_usize(s: Seq<char>) -> Option<usize> {
    match parse_up_to(s, usize::MAX as nat) {
        Some(n) => Some(n as usize),
        None => None,
    }
}

/// `s` as a `u8`, where it spells one.
pub open spec fn parse_u8(s: Seq<char>) -> Option<u8> {
    match parse_up_to(s, u8::MAX as nat) {
        Some(n) => Some(n as u8),
        None => None,
    }
}

/// `s` as an `i64`, where it spells one.
pub open spec fn parse_i64(s: Seq<char>) -> Option<i64> {
    match parse_signed(s) {
        Some(i) => if i64::MIN <= i <= i64::MAX {
            Some(i as i64)
        } else {
            None
        },
        None => None,
    }
}

/// A prefix of a digit string spells no more than the whole.
pub proof fn lemma_digits_prefix(s: Seq<char>, k: int)
    requires
        0 <= k <= s.len(),
    ensures
        digits_value(s.subrange(0, k)) <= digits_value(s),
    decreases s.len(),
{
    if k == s.len() {
        assert(s.subrange(0, k) =~= s);
    } else {
        assert(s.drop_last().subrange(0, k) =~= s.subrange(0, k));
        lemma_digits_prefix(s.drop_last(), k);
    }
}

/// Reads the digits `v[from..to]` as a number that is at most `max`.
fn parse_digits(v: &[char], from: usize, to: usize, max: u64) -> (r: Option<u64>)
    requires
        from <= to <= v.len(),
        max >= 9,
    ensures
        r == ({
            let d = v@.subrange(from as int, to as int);
            if d.len() > 0 && all_digits(d) && digits_value(d) <= max {
                Some(digits_value(d) as u64)
            } else {
                None
            }
        }),
{
    let ghost d = v@.subrange(from as int, to as int);
    if from == to {
        return None;
    }
    let mut acc: u64 = 0;
    let mut i: usize = from;
    while i < to
        invariant
            from <= i <= to <= v.len(),
            max >= 9,
            d == v@.subrange(from as int, to as int),
            all_digits(d.subrange(0, i - from)),
            acc == digits_value(d.subrange(0, i - from)),
            acc <= max,
        decreases to - i,
    {
        let c = v[i];
        if !(c >= '0' && c <= '9') {
            assert(d[i - from] == c);
            return None;
        }
        let digit: u64 = (c as u32 - 48) as u64;
        let ghost next = d.subrange(0, i - from + 1);
        assert(next.drop_last() =~= d.subrange(0, i - from));
        assert(next.last() == c);
        assert(digits_value(next) == acc * 10 + digit);
        if acc > (max - digit) / 10 {
            proof {
                lemma_digits_prefix(d, i - from + 1);
            }
            return None;
        }
        acc = acc * 10 + digit;
        i += 1;
    }
    assert(d.subrange(0, to - from) =~= d);
    Some(acc)
}

/// Reads `v[from..to]` as an unsigned decimal number that is at most `max`.
fn parse_up_to_in(v: &[char], from: usize, to: usize, max: u64) -> (r: Option<u64>)
    requires
        from <= to <= v.len(),
        max >= 9,
    ensures
        r == (match parse_up_to(v@.subrange(from as int, to as int), max as nat) {
            Some(n) => Some(n as u64),
            None => None,
        }),
{
    let ghost s = v@.subrange(from as int, to as int);
    if from < to && v[from] == '+' {
        assert(s[0] == '+');
        assert(s.subrange(1, s.len() as int) =~= v@.subrange(from + 1, to as int));
        parse_digits(v, from + 1, to, max)
    } else {
        assert(from < to ==> s[0] == v[from as int]);
        parse_digits(v, from, to, max)
    }
}

/// Reads `v[from..to]` as a `u64`.
pub fn parse_u64_in(v: &[char], from: usize, to: usize) -> (r: Option<u64>)
    requires
        from <= to <= v.len(),
    ensures
        r == parse_u64(v@.subrange(from as int, to as int)),
{
    parse_up_to_in(v, from, to, u64::MAX)
}

/// Reads `v[from..to]` as a `usize`.
pub fn parse_usize_in(v: &[char], from: usize, to: usize) -> (r: Option<usize>)
    requires
        from <= to <= v.len(),
    ensures
        r == parse_usize(v@.subrange(from as int, to as int)),
{
    match parse_up_to_in(v, from, to, usize::MAX as u64) {
        Some(n) => Some(n as usize),
        None => None,
    }
}

/// Reads `v[from..to]` as a `u8`.
pub fn parse_u8_in(v: &[char], from: usize, to: usize) -> (r: Option<u8>)
    requires
        from <= to <= v.len(),
    ensures
        r == parse_u8(v@.subrange(from as int, to as int)),
{
    match parse_up_to_in(v, from, to, 255) {
        Some(n) => Some(n as u8),
        None => None,
    }
}

/// Reads `v[from..to]` as an `i64`.
pub fn parse_i64_in(v: &[char], from: usize, to: usize) -> (r: Option<i64>)
    requires
        from <= to <= v.len(),
    ensures
        r == parse_i64(v@.subrange(from as int, to as int)),
{
    let ghost s = v@.subrange(from as int, to as int);
    if from < to && v[from] == '-' {
        assert(s[0] == '-');
        assert(s.subrange(1, s.len() as int) =~= v@.subrange(from + 1, to as int));
        match parse_digits(v, from + 1, to, 9223372036854775808) {
            Some(m) => if m == 9223372036854775808 {
                Some(i64::MIN)
            } else {
                Some(-(m as i64))
            },
            None => None,
        }
    } else {
        assert(from < to ==> s[0] == v[from as int]);
        match parse_up_to_in(v, from, to, 9223372036854775807) {
            Some(m) => Some(m as i64),
            None => None,
        }
    }
}


/// The first position at or after `from` where `s` holds `c`, or the length
/// of `s` where it holds none.
pub open spec fn index_of(s: Seq<char>, c: char, from: int) -> int
    decreases s.len() - from,
{
    if from >= s.len() {
        s.len() as int
    } else if s[from] == c {
        from
    } else {
        index_of(s, c, from + 1)
    }
}

/// What `index_of` finds lies in range, holds `c`, and nothing before it does.
pub proof fn lemma_index_of(s: Seq<char>, c: char, from: int)
    requires
        0 <= from <= s.len(),
    ensures
        from <= index_of(s, c, from) <= s.len(),
        index_of(s, c, from) < s.len() ==> s[index_of(s, c, from)] == c,
        forall|j: int| from <= j < index_of(s, c, from) ==> s[j] != c,
    decreases s.len() - from,
{
    if from < s.len() && s[from] != c {
        lemma_index_of(s, c, from + 1);
    }
}

/// Finds the first `c` in `v` at or after `from`.
pub fn find_char(v: &[char], c: char, from: usize) -> (r: usize)
    requires
        from <= v.len(),
    ensures
        r == index_of(v@, c, from as int),
        from <= r <= v.len(),
{
    let mut i: usize = from;
    while i < v.len() && v[i] != c
        invariant
            from <= i <= v.len(),
            index_of(v@, c, from as int) == index_of(v@, c, i as int),
        decreases v.len() - i,
    {
        i += 1;
    }
    i
}

/// Whether `needle` stands in `hay` at position `i`.
pub open spec fn occurs_at(hay: Seq<char>, needle: Seq<char>, i: int) -> bool {
    0 <= i && i + needle.len() <= hay.len() && hay.subrange(i, i + needle.len()) == needle
}

/// Whether `needle` stands somewhere in `hay` as a contiguous run.
pub open spec fn contains_seq(hay: Seq<char>, needle: Seq<char>) -> bool {
    exists|i: int| occurs_at(hay, needle, i)
}

/// Whether `hay` begins with `needle`.
pub open spec fn starts_with_seq(hay: Seq<char>, needle: Seq<char>) -> bool {
    occurs_at(hay, needle, 0)
}

/// Tests whether `needle` stands in `hay` at position `i`.
pub fn matches_at(hay: &[char], needle: &[char], i: usize) -> (r: bool)
    ensures
        r == occurs_at(hay@, needle@, i as int),
{
    if needle.len() > hay.len() || i > hay.len() - needle.len() {
        return false;
    }
    let mut k: usize = 0;
    while k < needle.len()
        invariant
            k <= needle.len(),
            i + needle.len() <= hay.len(),
            hay@.subrange(i as int, i + k) == needle@.subrange(0, k as int),
        decreases needle.len() - k,
    {
        if hay[i + k] != needle[k] {
            assert(hay@.subrange(i as int, i + needle.len())[k as int] != needle@[k as int]);
            return false;
        }
        assert(hay@.subrange(i as int, i + k + 1) =~= hay@.subrange(i as int, i + k).push(
            hay@[i + k],
        ));
        assert(needle@.subrange(0, k + 1) =~= needle@.subrange(0, k as int).push(needle@[k as int]));
        k += 1;
    }
    assert(needle@.subrange(0, k as int) =~= needle@);
    true
}

/// Tests whether `needle` stands somewhere in `hay`.
pub fn contains_chars(hay: &[char], needle: &[char]) -> (r: bool)
    ensures
        r == contains_seq(hay@, needle@),
{
    if needle.len() > hay.len() {
        return false;
    }
    let last: usize = hay.len() - needle.len();
    let mut i: usize = 0;
    while i < last
        invariant
            last == hay.len() - needle.len(),
            i <= last,
            forall|j: int| 0 <= j < i ==> !occurs_at(hay@, needle@, j),
        decreases last - i,
    {
        if matches_at(hay, needle, i) {
            return true;
        }
        i += 1;
    }
    matches_at(hay, needle, last)
}

/// Whether the characters `v` spell the text `lit`.
pub fn spells(v: &[char], lit: &str) -> (b: bool)
    ensures
        b == (v@ == lit@),
{
    let w = chars_of(lit);
    if v.len() != w.len() {
        return false;
    }
    let b = matches_at(v, w.as_slice(), 0);
    assert(v@.subrange(0, v.len() as int) =~= v@);
    b
}

/// The text that `String::from_utf8_lossy` makes of `bytes`.
pub uninterp spec fn utf8_lossy(bytes: Seq<u8>) -> Seq<char>;

/// The text that `str::to_uppercase` makes of `s`.
pub uninterp spec fn uppercased(s: Seq<char>) -> Seq<char>;

/// The text that `str::to_lowercase` makes of `s`.
pub uninterp spec fn lowercased(s: Seq<char>) -> Seq<char>;

/// Whether `c` has the Unicode property White_Space, as
/// `char::is_whitespace` tells it.
pub uninterp spec fn is_white_space(c: char) -> bool;

/// The first position at or after `from` where `s` holds a character that
/// is not white space, or the length of `s`.
pub open spec fn white_start(s: Seq<char>, from: int) -> int
    decreases s.len() - from,
{
    if from >= s.len() {
        s.len() as int
    } else if !is_white_space(s[from]) {
        from
    } else {
        white_start(s, from + 1)
    }
}

/// The end of `s[lo..hi]` once the white space at its end is dropped.
pub open spec fn white_end(s: Seq<char>, lo: int, hi: int) -> int
    decreases hi - lo,
{
    if hi <= lo {
        lo
    } else if !is_white_space(s[hi - 1]) {
        hi
    } else {
        white_end(s, lo, hi - 1)
    }
}

/// `s` without the white space at its end.
pub open spec fn trimmed_end(s: Seq<char>) -> Seq<char> {
    s.subrange(0, white_end(s, 0, s.len() as int))
}

/// `s` without the white space at its two ends.
pub open spec fn trimmed(s: Seq<char>) -> Seq<char> {
    let a = white_start(s, 0);
    s.subrange(a, white_end(s, a, s.len() as int))
}

/// Whether the lossy reading of `bytes` is their plain reading, if they
/// are valid UTF-8.
pub open spec fn reads_plainly(bytes: Seq<u8>) -> bool {
    valid_utf8(bytes) ==> utf8_lossy(bytes) == decode_utf8(bytes)
}

/// `String::from_utf8_lossy`: the bytes read as UTF-8, each malformed run
/// replaced as std does. The result depends on the bytes alone and is named
/// `utf8_lossy`. Bytes that are valid UTF-8 come back as the text they
/// encode, as std documents.
#[verifier::external_body]
pub(crate) fn lossy_text(bytes: &[u8]) -> (s: String)
    ensures
        s@ == utf8_lossy(bytes@),
        valid_utf8(bytes@) ==> s@ == decode_utf8(bytes@),
{
    String::from_utf8_lossy(bytes).into_owned()
}

/// `str::to_uppercase`: the upper-case form by std's Unicode tables, named
/// `uppercased`.
#[verifier::external_body]
pub(crate) fn upper_text(s: &str) -> (r: String)
    ensures
        r@ == uppercased(s@),
{
    s.to_uppercase()
}

/// `str::to_lowercase`: the lower-case form by std's Unicode tables, named
/// `lowercased`.
#[verifier::external_body]
pub(crate) fn lower_text(s: &str) -> (r: String)
    ensures
        r@ == lowercased(s@),
{
    s.to_lowercase()
}

/// `char::is_whitespace`: whether the character has the Unicode property
/// White_Space. The answer depends on the character alone and is named
/// `is_white_space`.
#[verifier::external_body]
pub(crate) fn is_space(c: char) -> (b: bool)
    ensures
        b == is_white_space(c),
{
    c.is_whitespace()
}

/// Where the white space at the end of `v[lo..]` begins.
fn end_of_text(v: &[char], lo: usize) -> (end: usize)
    requires
        lo <= v.len(),
    ensures
        end == white_end(v@, lo as int, v.len() as int),
        lo <= end <= v.len(),
{
    let mut end: usize = v.len();
    while end > lo && is_space(v[end - 1])
        invariant
            lo <= end <= v.len(),
            white_end(v@, lo as int, v.len() as int) == white_end(v@, lo as int, end as int),
        decreases end - lo,
    {
        end -= 1;
    }
    end
}

/// The characters of `s` without the white space at its end.
pub fn trim_end_chars(s: &str) -> (v: Vec<char>)
    ensures
        v@ == trimmed_end(s@),
{
    let mut v = chars_of(s);
    let end = end_of_text(v.as_slice(), 0);
    v.truncate(end);
    v
}

/// `s` without the white space at its two ends.
pub fn trim_string(s: &str) -> (t: String)
    ensures
        t@ == trimmed(s@),
{
    let v = chars_of(s);
    let mut a: usize = 0;
    while a < v.len() && is_space(v[a])
        invariant
            a <= v.len(),
            white_start(v@, 0) == white_start(v@, a as int),
        decreases v.len() - a,
    {
        a += 1;
    }
    let end = end_of_text(v.as_slice(), a);
    string_of(v.as_slice(), a, end)
}


/// `String::push`: appends the one character `c`.
#[verifier::external_body]
pub(crate) fn push_char(s: &mut String, c: char)
    ensures
        final(s)@ == old(s)@.push(c),
{
    s.push(c)
}

/// The string made of the characters `v[from..to]`.
pub fn string_of(v: &[char], from: usize, to: usize) -> (s: String)
    requires
        from <= to <= v.len(),
    ensures
        s@ == v@.subrange(from as int, to as int),
{
    let mut s = String::new();
    let mut i: usize = from;
    while i < to
        invariant
            from <= i <= to <= v.len(),
            s@ == v@.subrange(from as int, i as int),
        decreases to - i,
    {
        push_char(&mut s, v[i]);
        assert(v@.subrange(from as int, i + 1) =~= v@.subrange(from as int, i as int).push(
            v@[i as int],
        ));
        i += 1;
    }
    s
}


/// A number in decimal is one digit or more, all of them digits, and they
/// spell the number.
pub proof fn lemma_decimal_digits(n: nat)
    ensures
        decimal(n).len() > 0,
        all_digits(decimal(n)),
        digits_value(decimal(n)) == n,
    decreases n,
{
    if n < 10 {
        let s = decimal(n);
        assert(s.drop_last() =~= Seq::<char>::empty());
        assert(digits_value(s.drop_last()) == 0);
    } else {
        lemma_decimal_digits(n / 10);
        let s = decimal(n);
        assert(s.drop_last() =~= decimal(n / 10));
        assert(s.last() == digit_char((n % 10) as int));
        assert forall|i: int| 0 <= i < s.len() implies is_digit(#[trigger] s[i]) by {
            if i < s.len() - 1 {
                assert(s[i] == decimal(n / 10)[i]);
            }
        }
    }
}

/// Reading a number written in decimal gives the number back.
pub proof fn lemma_parse_decimal(n: nat)
    ensures
        parse_unsigned(decimal(n)) == Some(n),
{
    lemma_decimal_digits(n);
    assert(is_digit(decimal(n)[0]));
}

/// Reading a signed number written in decimal gives the number back.
pub proof fn lemma_parse_signed_decimal(i: int)
    ensures
        parse_signed(signed_decimal(i)) == Some(i),
{
    if i < 0 {
        let s = signed_decimal(i);
        lemma_decimal_digits((-i) as nat);
        assert(s[0] == '-');
        assert(s.subrange(1, s.len() as int) =~= decimal((-i) as nat));
    } else {
        lemma_parse_decimal(i as nat);
        lemma_decimal_digits(i as nat);
        assert(is_digit(decimal(i as nat)[0]));
    }
}

/// A signed number in decimal holds digits and `-` only.
pub proof fn lemma_signed_decimal_chars(i: int)
    ensures
        signed_decimal(i).len() > 0,
        forall|k: int|
            0 <= k < signed_decimal(i).len() ==> {
                let c = #[trigger] signed_decimal(i)[k];
                is_digit(c) || c == '-'
            },
{
    if i < 0 {
        lemma_decimal_digits((-i) as nat);
        let s = signed_decimal(i);
        assert forall|k: int| 0 <= k < s.len() implies {
            let c = #[trigger] s[k];
            is_digit(c) || c == '-'
        } by {
            if k > 0 {
                assert(s[k] == decimal((-i) as nat)[k - 1]);
            }
        }
    } else {
        lemma_decimal_digits(i as nat);
    }
}

} // verus!
