//! What the clipboard watcher decides: whether content is new, whether it
//! looks like what it claims to be, and how a capture becomes an entry.

use crate::backend::{ClipData, ClipKind};
use crate::item::{opt_text, Item, ItemKind, ItemView};
use crate::text::{
    chars_of, contains_chars, contains_seq, find_char, index_of, lower_text, lowercased,
    matches_at, push_signed_decimal, signed_decimal, starts_with_seq, trim_string, trimmed,
};
use vstd::prelude::*;
use vstd::slice::slice_to_vec;
use vstd::string::StringExecFns;

verus! {

/// The kind of entry that content of the kind `kind` becomes.
pub open spec fn entry_kind(kind: ClipKind) -> ItemKind {
    match kind {
        ClipKind::Text => ItemKind::Text,
        ClipKind::Image => ItemKind::Image,
        ClipKind::Html => ItemKind::Html,
    }
}

/// The kind of entry that content of the kind `kind` becomes.
pub fn item_kind(kind: ClipKind) -> (k: ItemKind)
    ensures
        k == entry_kind(kind),
{
    match kind {
        ClipKind::Text => ItemKind::Text,
        ClipKind::Image => ItemKind::Image,
        ClipKind::Html => ItemKind::Html,
    }
}

/// Whether an ASCII letter.
pub open spec fn is_ascii_letter(c: char) -> bool {
    ('a' <= c && c <= 'z') || ('A' <= c && c <= 'Z')
}

/// Whether `lower` holds one of the tags that mark html.
pub open spec fn has_html_tag(lower: Seq<char>) -> bool {
    ||| contains_seq(lower, "<html"@)
    ||| contains_seq(lower, "<body"@)
    ||| contains_seq(lower, "<head"@)
    ||| contains_seq(lower, "<div"@)
    ||| contains_seq(lower, "<span"@)
    ||| contains_seq(lower, "<p"@)
    ||| contains_seq(lower, "<br"@)
    ||| contains_seq(lower, "</"@)
}

/// Whether `t` holds a `<` that a letter follows at once and a `>` follows
/// later; only the first `<` is looked at.
pub open spec fn has_open_tag(t: Seq<char>) -> bool {
    let i = index_of(t, '<', 0);
    &&& i + 1 < t.len()
    &&& is_ascii_letter(t[i + 1])
    &&& index_of(t, '>', i + 1) < t.len()
}

/// Whether a text looks like html: without the white space around it, it
/// is not empty and, in lower case, begins with a doctype or holds a known
/// tag or a closing tag, or it holds something shaped like a tag.
pub open spec fn html_like(s: Seq<char>) -> bool {
    let t = trimmed(s);
    let lower = lowercased(t);
    t.len() > 0 && (starts_with_seq(lower, "<!doctype html"@) || has_html_tag(lower)
        || has_open_tag(t))
}

/// Whether the characters `hay` hold the text `lit`.
fn holds(hay: &[char], lit: &str) -> (b: bool)
    ensures
        b == contains_seq(hay@, lit@),
{
    let w = chars_of(lit);
    contains_chars(hay, w.as_slice())
}

/// Whether `s` looks like html.
pub fn looks_like_html(s: &str) -> (b: bool)
    ensures
        b == html_like(s@),
{
    let t = trim_string(s);
    let tv = chars_of(t.as_str());
    if tv.len() == 0 {
        return false;
    }
    let lower = lower_text(t.as_str());
    let lv = chars_of(lower.as_str());
    let doctype = chars_of("<!doctype html");
    if matches_at(lv.as_slice(), doctype.as_slice(), 0) {
        return true;
    }
    let l = lv.as_slice();
    if holds(l, "<html") || holds(l, "<body") || holds(l, "<head") || holds(l, "<div") || holds(
        l,
        "<span",
    ) || holds(l, "<p") || holds(l, "<br") || holds(l, "</") {
        return true;
    }
    let i = find_char(tv.as_slice(), '<', 0);
    if i < tv.len() && i + 1 < tv.len() {
        let c = tv[i + 1];
        let letter = (c >= 'a' && c <= 'z') || (c >= 'A' && c <= 'Z');
        letter && find_char(tv.as_slice(), '>', i + 1) < tv.len()
    } else {
        false
    }
}

/// Whether `b` begins with the bytes `sig`.
pub open spec fn begins_with(b: Seq<u8>, sig: Seq<u8>) -> bool {
    b.len() >= sig.len() && b.subrange(0, sig.len() as int) == sig
}

/// The signature of a PNG file.
pub open spec fn png_signature() -> Seq<u8> {
    seq![0x89u8, 0x50u8, 0x4Eu8, 0x47u8, 0x0Du8, 0x0Au8, 0x1Au8, 0x0Au8]
}

/// Whether bytes of at least twelve begin as an image of the content type
/// says they should: PNG by its signature, JPEG by `FF D8 FF`, WebP by
/// `RIFF` and, after four bytes, `WEBP`. Any other content type is refused.
pub open spec fn image_like(mime: Seq<char>, b: Seq<u8>) -> bool {
    if b.len() < 12 {
        false
    } else if contains_seq(mime, "png"@) {
        begins_with(b, png_signature())
    } else if contains_seq(mime, "jpeg"@) || contains_seq(mime, "jpg"@) {
        b[0] == 0xFF && b[1] == 0xD8 && b[2] == 0xFF
    } else if contains_seq(mime, "webp"@) {
        b[0] == 0x52 && b[1] == 0x49 && b[2] == 0x46 && b[3] == 0x46 && b[8] == 0x57 && b[9]
            == 0x45 && b[10] == 0x42 && b[11] == 0x50
    } else {
        false
    }
}

/// Whether `b` begins as an image of the content type `mime`.
pub fn is_valid_image_bytes(mime: &str, b: &[u8]) -> (ok: bool)
    ensures
        ok == image_like(mime@, b@),
{
    if b.len() < 12 {
        return false;
    }
    let m = chars_of(mime);
    if holds(m.as_slice(), "png") {
        let ok = b[0] == 0x89 && b[1] == 0x50 && b[2] == 0x4E && b[3] == 0x47 && b[4] == 0x0D
            && b[5] == 0x0A && b[6] == 0x1A && b[7] == 0x0A;
        proof {
            let head = b@.subrange(0, 8);
            assert(forall|k: int| 0 <= k < 8 ==> head[k] == b@[k]);
            if ok {
                assert(head =~= png_signature());
            } else {
                assert(png_signature()[0] == 0x89 && png_signature()[1] == 0x50
                    && png_signature()[2] == 0x4E && png_signature()[3] == 0x47
                    && png_signature()[4] == 0x0D && png_signature()[5] == 0x0A
                    && png_signature()[6] == 0x1A && png_signature()[7] == 0x0A);
            }
        }
        ok
    } else if holds(m.as_slice(), "jpeg") || holds(m.as_slice(), "jpg") {
        b[0] == 0xFF && b[1] == 0xD8 && b[2] == 0xFF
    } else if holds(m.as_slice(), "webp") {
        b[0] == 0x52 && b[1] == 0x49 && b[2] == 0x46 && b[3] == 0x46 && b[8] == 0x57 && b[9]
            == 0x45 && b[10] == 0x42 && b[11] == 0x50
    } else {
        false
    }
}


/// What the watcher remembers of the content it saw last.
pub struct Watcher {
    last_kind: Option<ClipKind>,
    last_bytes: Vec<u8>,
}

/// Whether two byte strings are equal.
fn same_content(a: &[u8], b: &[u8]) -> (r: bool)
    ensures
        r == (a@ == b@),
{
    if a.len() != b.len() {
        return false;
    }
    let mut i: usize = 0;
    while i < a.len()
        invariant
            i <= a.len(),
            a.len() == b.len(),
            forall|j: int| 0 <= j < i ==> a@[j] == b@[j],
        decreases a.len() - i,
    {
        if a[i] != b[i] {
            return false;
        }
        i += 1;
    }
    assert(a@ =~= b@);
    true
}

impl Watcher {
    /// The kind of the content seen last, if any was seen.
    pub closed spec fn last_kind(&self) -> Option<ClipKind> {
        self.last_kind
    }

    /// The bytes of the content seen last.
    pub closed spec fn last_bytes(&self) -> Seq<u8> {
        self.last_bytes@
    }

    /// Whether content of the kind `kind` with the bytes `bytes` is what
    /// was seen last.
    pub open spec fn saw(&self, kind: ClipKind, bytes: Seq<u8>) -> bool {
        self.last_kind() == Some(kind) && self.last_bytes() == bytes
    }

    /// A watcher that has seen nothing.
    pub fn new() -> (w: Self)
        ensures
            w.last_kind() is None,
            w.last_bytes() == Seq::<u8>::empty(),
    {
        Watcher { last_kind: None, last_bytes: Vec::new() }
    }

    /// Takes note of content read from the clipboard and says whether it
    /// differs from what was seen last, in kind or in bytes. Content that
    /// is new becomes what was seen last.
    pub fn observe(&mut self, kind: ClipKind, bytes: &[u8]) -> (is_new: bool)
        ensures
            is_new == !old(self).saw(kind, bytes@),
            final(self).saw(kind, bytes@),
    {
        let same = match self.last_kind {
            Some(k) => k == kind && same_content(self.last_bytes.as_slice(), bytes),
            None => false,
        };
        if same {
            false
        } else {
            self.last_kind = Some(kind);
            self.last_bytes = slice_to_vec(bytes);
            true
        }
    }
}

/// The largest payload of a kind that is held in the entry itself; a larger
/// one goes to a file of the cache. Text is always held in the entry.
pub open spec fn inline_limit(kind: ClipKind) -> Option<nat> {
    match kind {
        ClipKind::Text => None,
        ClipKind::Image => Some(200_000nat),
        ClipKind::Html => Some(100_000nat),
    }
}

/// Whether a payload of `len` bytes of the kind `kind` goes to a file.
pub open spec fn goes_to_file(kind: ClipKind, len: nat) -> bool {
    match inline_limit(kind) {
        Some(limit) => len > limit,
        None => false,
    }
}

/// The file extension for an image of the content type `mime`.
pub open spec fn image_extension(mime: Seq<char>) -> Seq<char> {
    if contains_seq(mime, "png"@) {
        "png"@
    } else if contains_seq(mime, "jpeg"@) || contains_seq(mime, "jpg"@) {
        "jpg"@
    } else if contains_seq(mime, "webp"@) {
        "webp"@
    } else {
        "bin"@
    }
}

/// The content type of a capture: the one it carries, or that of its kind.
pub open spec fn capture_mime(kind: ClipKind, mime: Option<Seq<char>>) -> Seq<char> {
    match mime {
        Some(m) => m,
        None => match kind {
            ClipKind::Text => "text/plain"@,
            ClipKind::Image => "image/png"@,
            ClipKind::Html => "text/html"@,
        },
    }
}

/// The name of the cache file for a capture made at time `now`.
pub open spec fn cache_file_name(kind: ClipKind, mime: Seq<char>, now: i64) -> Seq<char> {
    match kind {
        ClipKind::Image => "img-"@ + signed_decimal(now as int) + seq!['.'] + image_extension(mime),
        _ => "html-"@ + signed_decimal(now as int) + ".html"@,
    }
}

/// The directory of the cache that holds captures of a kind.
pub open spec fn cache_dir_name(kind: ClipKind) -> Seq<char> {
    match kind {
        ClipKind::Image => "images"@,
        _ => "html"@,
    }
}

/// How a capture becomes an entry.
pub enum Capture {
    /// The entry holds the payload.
    Inline(Item),
    /// The payload is to be written to the named file of the cache
    /// directory. Then [`Capture::stored_at`] gives the entry, or
    /// [`Capture::kept_inline`] where the file could not be written.
    External { dir: String, file_name: String, bytes: Vec<u8>, mime: String, kind: ItemKind },
}

/// The value of a [`Capture`].
pub ghost enum CaptureView {
    Inline(ItemView),
    External { dir: Seq<char>, file_name: Seq<char>, bytes: Seq<u8>, mime: Seq<char>, kind: ItemKind },
}

impl View for Capture {
    type V = CaptureView;

    open spec fn view(&self) -> CaptureView {
        match self {
            Capture::Inline(it) => CaptureView::Inline(it@),
            Capture::External { dir, file_name, bytes, mime, kind } => CaptureView::External {
                dir: dir@,
                file_name: file_name@,
                bytes: bytes@,
                mime: mime@,
                kind: *kind,
            },
        }
    }
}

/// The entry of a capture before it is inserted: not pinned, without
/// identifier or time, which insertion gives.
pub open spec fn captured(
    kind: ItemKind,
    data: Seq<u8>,
    mime: Seq<char>,
    path: Option<Seq<char>>,
) -> ItemView {
    ItemView { id: 0, kind, data, pinned: false, ts_ms: 0, mime: Some(mime), file_path: path }
}

/// How content read at time `now` becomes an entry: a payload within the
/// limit of its kind is held in the entry, a larger one goes to a file.
pub open spec fn planned(kind: ClipKind, bytes: Seq<u8>, mime: Option<Seq<char>>, now: i64) -> CaptureView {
    let m = capture_mime(kind, mime);
    if goes_to_file(kind, bytes.len()) {
        CaptureView::External {
            dir: cache_dir_name(kind),
            file_name: cache_file_name(kind, m, now),
            bytes,
            mime: m,
            kind: entry_kind(kind),
        }
    } else {
        CaptureView::Inline(captured(entry_kind(kind), bytes, m, None))
    }
}

/// The file extension for an image of the content type `mime`.
fn extension_of(mime: &str) -> (ext: &'static str)
    ensures
        ext@ == image_extension(mime@),
{
    let m = chars_of(mime);
    if holds(m.as_slice(), "png") {
        "png"
    } else if holds(m.as_slice(), "jpeg") || holds(m.as_slice(), "jpg") {
        "jpg"
    } else if holds(m.as_slice(), "webp") {
        "webp"
    } else {
        "bin"
    }
}

/// Plans how the content `data`, read at time `now`, becomes an entry.
pub fn plan_capture(data: ClipData, now: i64) -> (plan: Capture)
    ensures
        plan@ == planned(data.kind, data.bytes@, opt_text(data.mime), now),
{
    let kind = data.kind;
    let mime = match data.mime {
        Some(m) => m,
        None => String::from_str(
            match kind {
                ClipKind::Text => "text/plain",
                ClipKind::Image => "image/png",
                ClipKind::Html => "text/html",
            },
        ),
    };
    let to_file = match kind {
        ClipKind::Text => false,
        ClipKind::Image => data.bytes.len() > 200_000,
        ClipKind::Html => data.bytes.len() > 100_000,
    };
    if !to_file {
        return Capture::Inline(
            Item {
                id: 0,
                kind: item_kind(kind),
                data: data.bytes,
                pinned: false,
                ts_ms: 0,
                mime: Some(mime),
                file_path: None,
            },
        );
    }
    let mut name = String::new();
    let dir = match kind {
        ClipKind::Image => {
            name.append("img-");
            push_signed_decimal(&mut name, now);
            crate::text::push_char(&mut name, '.');
            name.append(extension_of(mime.as_str()));
            assert(name@ =~= cache_file_name(kind, mime@, now));
            String::from_str("images")
        },
        _ => {
            name.append("html-");
            push_signed_decimal(&mut name, now);
            name.append(".html");
            assert(name@ =~= cache_file_name(kind, mime@, now));
            String::from_str("html")
        },
    };
    Capture::External { dir, file_name: name, bytes: data.bytes, mime, kind: item_kind(kind) }
}

impl Capture {
    /// The entry to insert once the payload was written to the file at
    /// `path`: it names the file and holds no bytes. A capture that is held
    /// inline gives its entry as it is.
    pub fn stored_at(self, path: String) -> (it: Item)
        ensures
            it@ == (match self@ {
                CaptureView::Inline(e) => e,
                CaptureView::External { dir, file_name, bytes, mime, kind } => captured(
                    kind,
                    Seq::empty(),
                    mime,
                    Some(path@),
                ),
            }),
    {
        match self {
            Capture::Inline(it) => it,
            Capture::External { dir, file_name, bytes, mime, kind } => Item {
                id: 0,
                kind,
                data: Vec::new(),
                pinned: false,
                ts_ms: 0,
                mime: Some(mime),
                file_path: Some(path),
            },
        }
    }

    /// The entry to insert where the file could not be written: it holds
    /// the payload itself, so that the capture is not lost.
    pub fn kept_inline(self) -> (it: Item)
        ensures
            it@ == (match self@ {
                CaptureView::Inline(e) => e,
                CaptureView::External { dir, file_name, bytes, mime, kind } => captured(
                    kind,
                    bytes,
                    mime,
                    None,
                ),
            }),
    {
        match self {
            Capture::Inline(it) => it,
            Capture::External { dir, file_name, bytes, mime, kind } => Item {
                id: 0,
                kind,
                data: bytes,
                pinned: false,
                ts_ms: 0,
                mime: Some(mime),
                file_path: None,
            },
        }
    }
}

} // verus!
