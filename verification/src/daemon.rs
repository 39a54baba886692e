//! The daemon's state and its line protocol: one command in, one reply out,
//! with the history as the only thing that changes.

use crate::history::{
    first_index, has_id, lacks_id, pinned_as, pushed, History, HistoryConfig,
};
use crate::clock::now_ms;
use crate::history::id_after;
use crate::item::{opt_text, title_of, views, Item, ItemKind, ItemView};
use crate::store::{decoded_log, log_text, FileStore};
use crate::text::{
    chars_of, contains_chars, contains_seq, decimal, find_char, index_of, lossy_text, lower_text,
    lowercased, parse_u64, parse_u64_in, parse_u8, parse_u8_in, parse_usize, parse_usize_in,
    push_char, push_decimal, reads_plainly, spells, string_of, trim_end_chars, trimmed_end,
    upper_text,
    uppercased, utf8_lossy,
};
use base64::Engine;
use vstd::prelude::*;
use vstd::slice::slice_to_vec;
use vstd::string::{StrSliceExecFns, StringExecFns};
use vstd::utf8::encode_utf8;

verus! {

/// What the daemon is configured with: which kinds of content it watches,
/// the limits of the history, and the byte budgets of the two caches.
#[derive(Clone, Copy, Debug)]
pub struct DaemonConfig {
    pub watch_text: bool,
    pub watch_html: bool,
    pub watch_image: bool,
    pub max_items: usize,
    pub max_text_bytes: usize,
    pub max_image_bytes: usize,
    pub ttl_secs: u64,
    pub cache_images_max_bytes: u64,
    pub cache_html_max_bytes: u64,
}

impl Default for DaemonConfig {
    fn default() -> (cfg: Self)
        ensures
            cfg == (DaemonConfig {
                watch_text: true,
                watch_html: true,
                watch_image: true,
                max_items: 200,
                max_text_bytes: 100_000,
                max_image_bytes: 2_000_000,
                ttl_secs: 0,
                cache_images_max_bytes: 104_857_600,
                cache_html_max_bytes: 52_428_800,
            }),
    {
        DaemonConfig {
            watch_text: true,
            watch_html: true,
            watch_image: true,
            max_items: 200,
            max_text_bytes: 100_000,
            max_image_bytes: 2_000_000,
            ttl_secs: 0,
            cache_images_max_bytes: 104_857_600,
            cache_html_max_bytes: 52_428_800,
        }
    }
}

impl DaemonConfig {
    /// The limits of the history under this configuration.
    pub open spec fn history_limits(self) -> HistoryConfig {
        HistoryConfig {
            max_items: self.max_items,
            max_text_bytes: self.max_text_bytes,
            max_image_bytes: self.max_image_bytes,
            ttl_secs: self.ttl_secs,
        }
    }
}

/// Where the bytes of a reply are: at hand, or in a file of the cache. A
/// file that cannot be read counts as empty.
pub enum Source {
    Inline(Vec<u8>),
    File(String),
}

/// The value of a [`Source`].
pub ghost enum SourceView {
    Inline(Seq<u8>),
    File(Seq<char>),
}

impl View for Source {
    type V = SourceView;

    open spec fn view(&self) -> SourceView {
        match self {
            Source::Inline(b) => SourceView::Inline(b@),
            Source::File(p) => SourceView::File(p@),
        }
    }
}

/// What a command asks the caller to do.
pub enum Reply {
    /// Send this text; nothing else is to be done.
    Line(String),
    /// Fetch the bytes of the image and send [`image_reply`] of them.
    Image { mime: String, source: Source },
    /// Fetch the bytes, put them on the system clipboard under the content
    /// type, and send [`paste_reply`] of how that went.
    Paste { kind: ItemKind, mime: String, source: Source },
}

/// The value of a [`Reply`].
pub ghost enum ReplyView {
    Line(Seq<char>),
    Image { mime: Seq<char>, source: SourceView },
    Paste { kind: ItemKind, mime: Seq<char>, source: SourceView },
}

impl View for Reply {
    type V = ReplyView;

    open spec fn view(&self) -> ReplyView {
        match self {
            Reply::Line(s) => ReplyView::Line(s@),
            Reply::Image { mime, source } => ReplyView::Image { mime: mime@, source: source@ },
            Reply::Paste { kind, mime, source } => ReplyView::Paste {
                kind: *kind,
                mime: mime@,
                source: source@,
            },
        }
    }
}

/// A command of the protocol, with its arguments read.
pub enum Command {
    AddText(Vec<u8>),
    AddHtml(Vec<u8>),
    /// At most `limit` entries that match the lower-case `query`.
    List { limit: usize, query: String },
    Get(Option<u64>),
    Paste(Option<u64>),
    /// The identifier and the flag, where both were given and read.
    Pin(Option<(u64, bool)>),
    Delete(Option<u64>),
    Clear,
    Unknown,
}

/// The value of a [`Command`].
pub ghost enum CommandView {
    AddText(Seq<u8>),
    AddHtml(Seq<u8>),
    List { limit: usize, query: Seq<char> },
    Get(Option<u64>),
    Paste(Option<u64>),
    Pin(Option<(u64, bool)>),
    Delete(Option<u64>),
    Clear,
    Unknown,
}

impl View for Command {
    type V = CommandView;

    open spec fn view(&self) -> CommandView {
        match self {
            Command::AddText(d) => CommandView::AddText(d@),
            Command::AddHtml(d) => CommandView::AddHtml(d@),
            Command::List { limit, query } => CommandView::List { limit: *limit, query: query@ },
            Command::Get(id) => CommandView::Get(*id),
            Command::Paste(id) => CommandView::Paste(*id),
            Command::Pin(a) => CommandView::Pin(*a),
            Command::Delete(id) => CommandView::Delete(*id),
            Command::Clear => CommandView::Clear,
            Command::Unknown => CommandView::Unknown,
        }
    }
}

/// A line cut at its first two spaces: the verb, what stands between the
/// two spaces, and all that follows the second; and, cut at the first space
/// only, all that follows the verb.
pub ghost struct Words {
    pub verb: Seq<char>,
    pub first: Option<Seq<char>>,
    pub rest: Option<Seq<char>>,
    pub tail: Option<Seq<char>>,
}

/// The words of a line.
pub open spec fn words(line: Seq<char>) -> Words {
    let a = index_of(line, ' ', 0);
    if a >= line.len() {
        Words { verb: line, first: None, rest: None, tail: None }
    } else {
        let b = index_of(line, ' ', a + 1);
        if b >= line.len() {
            Words {
                verb: line.subrange(0, a),
                first: Some(line.subrange(a + 1, line.len() as int)),
                rest: None,
                tail: Some(line.subrange(a + 1, line.len() as int)),
            }
        } else {
            Words {
                verb: line.subrange(0, a),
                first: Some(line.subrange(a + 1, b)),
                rest: Some(line.subrange(b + 1, line.len() as int)),
                tail: Some(line.subrange(a + 1, line.len() as int)),
            }
        }
    }
}

/// An optional word, absent read as empty.
pub open spec fn word_or_empty(w: Option<Seq<char>>) -> Seq<char> {
    match w {
        Some(s) => s,
        None => Seq::empty(),
    }
}

/// The identifier that an optional word spells.
pub open spec fn id_of(w: Option<Seq<char>>) -> Option<u64> {
    match w {
        Some(s) => parse_u64(s),
        None => None,
    }
}

/// The arguments of `PIN`: an identifier, and a number up to 255 that pins
/// unless it is 0.
pub open spec fn pin_args(w: Words) -> Option<(u64, bool)> {
    match (id_of(w.first), w.rest) {
        (Some(id), Some(r)) => match parse_u8(r) {
            Some(v) => Some((id, v != 0)),
            None => None,
        },
        _ => None,
    }
}

/// The limit of `LIST`: the number given, or 50 where none is given or read.
pub open spec fn list_limit(w: Words) -> usize {
    match w.first {
        Some(s) => match parse_usize(s) {
            Some(n) => n,
            None => 50,
        },
        None => 50,
    }
}

/// The command that a line holds. Trailing white space is dropped, the verb
/// is the text before the first space and is read without regard to case.
/// The content of `ADD_TEXT` and `ADD_HTML` is all that follows the first
/// space, spaces included.
pub open spec fn command_of(line: Seq<char>) -> CommandView {
    let w = words(trimmed_end(line));
    let verb = uppercased(w.verb);
    if verb == "ADD_TEXT"@ {
        CommandView::AddText(encode_utf8(word_or_empty(w.tail)))
    } else if verb == "ADD_HTML"@ {
        CommandView::AddHtml(encode_utf8(word_or_empty(w.tail)))
    } else if verb == "LIST"@ {
        CommandView::List { limit: list_limit(w), query: lowercased(word_or_empty(w.rest)) }
    } else if verb == "GET"@ {
        CommandView::Get(id_of(w.first))
    } else if verb == "PASTE"@ {
        CommandView::Paste(id_of(w.first))
    } else if verb == "PIN"@ {
        CommandView::Pin(pin_args(w))
    } else if verb == "DELETE"@ {
        CommandView::Delete(id_of(w.first))
    } else if verb == "CLEAR"@ {
        CommandView::Clear
    } else {
        CommandView::Unknown
    }
}

/// Reads the command that `line` holds.
pub fn parse_command(line: &str) -> (cmd: Command)
    ensures
        cmd@ == command_of(line@),
{
    let v = trim_end_chars(line);
    let n = v.len();
    let a = find_char(v.as_slice(), ' ', 0);
    let b = if a < n {
        find_char(v.as_slice(), ' ', a + 1)
    } else {
        n
    };
    let ghost w = words(v@);
    let verb = string_of(v.as_slice(), 0, a);
    proof {
        if a >= n {
            assert(v@.subrange(0, a as int) =~= v@);
        }
    }
    assert(verb@ == w.verb);
    let upper = upper_text(verb.as_str());
    let u = chars_of(upper.as_str());
    let first_from = if a < n {
        a + 1
    } else {
        n
    };
    let rest_from = if b < n {
        b + 1
    } else {
        n
    };
    assert(v@.subrange(first_from as int, b as int) =~= word_or_empty(w.first));
    assert(v@.subrange(rest_from as int, n as int) =~= word_or_empty(w.rest));
    assert(v@.subrange(first_from as int, n as int) =~= word_or_empty(w.tail));
    let id = if a < n {
        parse_u64_in(v.as_slice(), a + 1, b)
    } else {
        None
    };
    assert(id == id_of(w.first));
    if spells(u.as_slice(), "ADD_TEXT") {
        let text = string_of(v.as_slice(), first_from, n);
        Command::AddText(text.as_str().as_bytes_vec())
    } else if spells(u.as_slice(), "ADD_HTML") {
        let text = string_of(v.as_slice(), first_from, n);
        Command::AddHtml(text.as_str().as_bytes_vec())
    } else if spells(u.as_slice(), "LIST") {
        let limit = if a < n {
            match parse_usize_in(v.as_slice(), a + 1, b) {
                Some(k) => k,
                None => 50,
            }
        } else {
            50
        };
        let query = string_of(v.as_slice(), rest_from, n);
        Command::List { limit, query: lower_text(query.as_str()) }
    } else if spells(u.as_slice(), "GET") {
        Command::Get(id)
    } else if spells(u.as_slice(), "PASTE") {
        Command::Paste(id)
    } else if spells(u.as_slice(), "PIN") {
        let flag = if b < n {
            parse_u8_in(v.as_slice(), b + 1, n)
        } else {
            None
        };
        match (id, flag) {
            (Some(i), Some(f)) => Command::Pin(Some((i, f != 0))),
            _ => Command::Pin(None),
        }
    } else if spells(u.as_slice(), "DELETE") {
        Command::Delete(id)
    } else if spells(u.as_slice(), "CLEAR") {
        Command::Clear
    } else {
        Command::Unknown
    }
}


/// The text that the standard base64 alphabet with padding makes of `bytes`.
pub uninterp spec fn base64_standard(bytes: Seq<u8>) -> Seq<char>;

/// Whether `len` bytes can be encoded: four characters for every three
/// bytes, and four more, must fit in a `usize`.
pub open spec fn encodable(len: nat) -> bool {
    len / 3 * 4 + 4 <= usize::MAX
}

/// `Engine::encode` of `base64::engine::general_purpose::STANDARD`: the
/// bytes in the standard alphabet with padding. It panics where the length
/// of the result overflows, which `requires` leaves out. The result depends
/// on the bytes alone and is named `base64_standard`.
#[verifier::external_body]
fn base64_text(bytes: &[u8]) -> (s: String)
    requires
        encodable(bytes@.len()),
    ensures
        s@ == base64_standard(bytes@),
{
    base64::engine::general_purpose::STANDARD.encode(bytes)
}

/// The reply to `GET` for an image of the content type `mime` with the
/// given bytes.
pub open spec fn image_text(mime: Seq<char>, bytes: Seq<u8>) -> Seq<char> {
    "IMAGE\n"@ + mime + seq!['\n'] + base64_standard(bytes)
}

/// The reply to `GET` for an image: its content type and its bytes in
/// base64. None where the bytes are too many to encode.
pub fn image_reply(mime: &str, bytes: &[u8]) -> (text: Option<String>)
    ensures
        match text {
            Some(t) => encodable(bytes@.len()) && t@ == image_text(mime@, bytes@),
            None => !encodable(bytes@.len()),
        },
{
    if bytes.len() / 3 > (usize::MAX - 4) / 4 {
        return None;
    }
    let mut out = String::from_str("IMAGE\n");
    out.append(mime);
    push_char(&mut out, '\n');
    let b64 = base64_text(bytes);
    out.append(b64.as_str());
    assert(out@ =~= image_text(mime@, bytes@));
    Some(out)
}

/// The view of the outcome of writing to the clipboard.
pub open spec fn paste_result(r: Result<(), String>) -> Option<Seq<char>> {
    match r {
        Ok(_) => None,
        Err(e) => Some(e@),
    }
}

/// The reply to `PASTE` once the clipboard was written: `OK`, or `ERR` and
/// what went wrong.
pub open spec fn paste_text(failure: Option<Seq<char>>) -> Seq<char> {
    match failure {
        None => "OK"@,
        Some(e) => "ERR "@ + e,
    }
}

/// The reply to `PASTE`, given how writing to the clipboard went.
pub fn paste_reply(result: Result<(), String>) -> (text: String)
    ensures
        text@ == paste_text(paste_result(result)),
{
    match result {
        Ok(_) => String::from_str("OK"),
        Err(e) => {
            let mut out = String::from_str("ERR ");
            out.append(e.as_str());
            out
        },
    }
}

/// The content type of a kind, for an entry that carries none.
pub open spec fn default_mime(kind: ItemKind) -> Seq<char> {
    match kind {
        ItemKind::Text => "text/plain"@,
        ItemKind::Html => "text/html"@,
        ItemKind::Image => "image/png"@,
    }
}

/// The content type of an entry.
pub open spec fn mime_of(e: ItemView) -> Seq<char> {
    match e.mime {
        Some(m) => m,
        None => default_mime(e.kind),
    }
}

/// The name of a kind in a row of `LIST`.
pub open spec fn kind_name(kind: ItemKind) -> Seq<char> {
    match kind {
        ItemKind::Text => "Text"@,
        ItemKind::Image => "Image"@,
        ItemKind::Html => "Html"@,
    }
}

/// The row of an entry in the reply to `LIST`: identifier, kind, pinned
/// flag, title and content type with tabs between them, and a line feed.
pub open spec fn row(e: ItemView) -> Seq<char> {
    decimal(e.id as nat) + seq!['\t'] + kind_name(e.kind) + seq!['\t'] + seq![
        if e.pinned {
            '1'
        } else {
            '0'
        },
    ] + seq!['\t'] + title_of(e) + seq!['\t'] + mime_of(e) + seq!['\n']
}

/// The rows of the entries `l`, in order.
pub open spec fn rows(l: Seq<ItemView>) -> Seq<char>
    decreases l.len(),
{
    if l.len() == 0 {
        Seq::empty()
    } else {
        rows(l.drop_last()) + row(l.last())
    }
}

/// Whether an entry matches the lower-case query `q`: a text by its whole
/// content, any other kind by its title, both in lower case.
pub open spec fn query_matches(e: ItemView, q: Seq<char>) -> bool {
    match e.kind {
        ItemKind::Text => contains_seq(lowercased(utf8_lossy(e.data)), q),
        _ => contains_seq(lowercased(title_of(e)), q),
    }
}

/// The entries that `LIST` with the query `q` shows: all for an empty
/// query, else those that match.
pub open spec fn shown(q: Seq<char>) -> spec_fn(ItemView) -> bool {
    |e: ItemView| q.len() == 0 || query_matches(e, q)
}

/// The entries that `LIST` gives: most recent first, those that the query
/// shows, and of these the first `limit`; none for a limit of 0.
pub open spec fn listed(s: Seq<ItemView>, q: Seq<char>, limit: usize) -> Seq<ItemView> {
    let m = s.reverse().filter(shown(q));
    if m.len() <= limit {
        m
    } else {
        m.subrange(0, limit as int)
    }
}

/// The reply to `LIST` for the entries `l`.
pub open spec fn list_text(l: Seq<ItemView>) -> Seq<char> {
    "OK "@ + decimal(l.len()) + seq!['\n'] + rows(l)
}

/// Where the bytes of an entry are: in the entry, or, for an entry without
/// bytes that names a file, in that file.
pub open spec fn bytes_of(data: Seq<u8>, path: Option<Seq<char>>) -> SourceView {
    if data.len() == 0 {
        match path {
            Some(p) => SourceView::File(p),
            None => SourceView::Inline(data),
        }
    } else {
        SourceView::Inline(data)
    }
}

/// The reply to `GET` for an entry: a text or html as it reads, an image
/// as a request to fetch and encode it.
pub open spec fn get_entry(e: ItemView) -> ReplyView {
    match e.kind {
        ItemKind::Text => ReplyView::Line("TEXT\n"@ + utf8_lossy(e.data)),
        ItemKind::Html => ReplyView::Line("HTML\n"@ + utf8_lossy(e.data)),
        ItemKind::Image => ReplyView::Image {
            mime: match e.mime {
                Some(m) => m,
                None => "image/png"@,
            },
            source: bytes_of(e.data, e.file_path),
        },
    }
}

/// The reply to `PASTE` for an entry: what to put on the clipboard. A text
/// goes as it reads; html too, or from its file where the entry holds none;
/// an image as its bytes.
pub open spec fn paste_entry(e: ItemView) -> ReplyView {
    match e.kind {
        ItemKind::Text => ReplyView::Paste {
            kind: ItemKind::Text,
            mime: "text/plain;charset=utf-8"@,
            source: SourceView::Inline(encode_utf8(utf8_lossy(e.data))),
        },
        ItemKind::Html => ReplyView::Paste {
            kind: ItemKind::Html,
            mime: "text/html"@,
            source: bytes_of(encode_utf8(utf8_lossy(e.data)), e.file_path),
        },
        ItemKind::Image => ReplyView::Paste {
            kind: ItemKind::Image,
            mime: match e.mime {
                Some(m) => m,
                None => "image/png"@,
            },
            source: bytes_of(e.data, e.file_path),
        },
    }
}

/// The capture that `ADD_TEXT` or `ADD_HTML` inserts.
pub open spec fn candidate(kind: ItemKind, data: Seq<u8>) -> ItemView {
    ItemView {
        id: 0,
        kind,
        data,
        pinned: false,
        ts_ms: 0,
        mime: Some(default_mime(kind)),
        file_path: None,
    }
}

/// The capture that a command inserts, if it is one that inserts.
pub open spec fn added(cmd: CommandView) -> Option<ItemView> {
    match cmd {
        CommandView::AddText(data) => Some(candidate(ItemKind::Text, data)),
        CommandView::AddHtml(data) => Some(candidate(ItemKind::Html, data)),
        _ => None,
    }
}

/// What a command leaves: the entries, the next identifier, the reply, and
/// whether the history is to be saved.
pub ghost struct Stepped {
    pub items: Seq<ItemView>,
    pub next_id: u64,
    pub reply: ReplyView,
    pub save: bool,
}

/// The reply that stands for an entry sought by identifier, or `ERR not
/// found`.
pub open spec fn found_reply(
    s: Seq<ItemView>,
    id: Option<u64>,
    f: spec_fn(ItemView) -> ReplyView,
) -> ReplyView {
    match id {
        Some(i) => {
            let k = first_index(s, has_id(i));
            if 0 <= k < s.len() {
                f(s[k])
            } else {
                ReplyView::Line("ERR not found"@)
            }
        },
        None => ReplyView::Line("ERR not found"@),
    }
}

/// The step of the protocol: what the command `cmd`, handled at time `now`,
/// makes of the entries `s` and the next identifier, and what it replies.
pub open spec fn stepped(
    cfg: HistoryConfig,
    s: Seq<ItemView>,
    next_id: u64,
    cmd: CommandView,
    now: i64,
) -> Stepped {
    match cmd {
        CommandView::AddText(data) => {
            let p = pushed(cfg, s, next_id, candidate(ItemKind::Text, data), now);
            Stepped {
                items: p.items,
                next_id: p.next_id,
                reply: ReplyView::Line(
                    match p.id {
                        Some(id) => "OK "@ + decimal(id as nat),
                        None => "ERR text too large"@,
                    },
                ),
                save: p.id is Some,
            }
        },
        CommandView::AddHtml(data) => {
            let p = pushed(cfg, s, next_id, candidate(ItemKind::Html, data), now);
            Stepped {
                items: p.items,
                next_id: p.next_id,
                reply: ReplyView::Line(
                    match p.id {
                        Some(id) => "OK "@ + decimal(id as nat),
                        None => "ERR too large"@,
                    },
                ),
                save: p.id is Some,
            }
        },
        CommandView::List { limit, query } => Stepped {
            items: s,
            next_id,
            reply: ReplyView::Line(list_text(listed(s, query, limit))),
            save: false,
        },
        CommandView::Get(id) => Stepped {
            items: s,
            next_id,
            reply: found_reply(s, id, |e: ItemView| get_entry(e)),
            save: false,
        },
        CommandView::Paste(id) => Stepped {
            items: s,
            next_id,
            reply: found_reply(s, id, |e: ItemView| paste_entry(e)),
            save: false,
        },
        CommandView::Pin(args) => match args {
            Some((id, flag)) => Stepped {
                items: pinned_as(s, id, flag),
                next_id,
                reply: ReplyView::Line("OK"@),
                save: true,
            },
            None => Stepped {
                items: s,
                next_id,
                reply: ReplyView::Line("ERR invalid args"@),
                save: false,
            },
        },
        CommandView::Delete(arg) => match arg {
            Some(id) => if first_index(s, has_id(id)) < s.len() {
                Stepped {
                    items: s.filter(lacks_id(id)),
                    next_id,
                    reply: ReplyView::Line("OK"@),
                    save: true,
                }
            } else {
                Stepped { items: s, next_id, reply: ReplyView::Line("ERR not found"@), save: false }
            },
            None => Stepped {
                items: s,
                next_id,
                reply: ReplyView::Line("ERR invalid args"@),
                save: false,
            },
        },
        CommandView::Clear => Stepped {
            items: Seq::empty(),
            next_id,
            reply: ReplyView::Line("OK"@),
            save: true,
        },
        CommandView::Unknown => Stepped {
            items: s,
            next_id,
            reply: ReplyView::Line("ERR unknown"@),
            save: false,
        },
    }
}


/// Appends the row of `it` to `out`.
fn row_into(out: &mut String, it: &Item)
    ensures
        final(out)@ == old(out)@ + row(it@),
        it.kind == ItemKind::Text ==> reads_plainly(it.data@),
{
    push_decimal(out, it.id);
    push_char(out, '\t');
    out.append(
        match it.kind {
            ItemKind::Text => "Text",
            ItemKind::Image => "Image",
            ItemKind::Html => "Html",
        },
    );
    push_char(out, '\t');
    push_char(
        out,
        if it.pinned {
            '1'
        } else {
            '0'
        },
    );
    push_char(out, '\t');
    let title = it.title();
    out.append(title.as_str());
    push_char(out, '\t');
    match &it.mime {
        Some(m) => out.append(m.as_str()),
        None => out.append(
            match it.kind {
                ItemKind::Text => "text/plain",
                ItemKind::Html => "text/html",
                ItemKind::Image => "image/png",
            },
        ),
    }
    push_char(out, '\n');
    assert(out@ =~= old(out)@ + row(it@));
}

/// Whether `it` matches the lower-case query `q`.
pub fn matches_query(it: &Item, q: &[char]) -> (b: bool)
    ensures
        b == query_matches(it@, q@),
{
    let text = match it.kind {
        ItemKind::Text => lossy_text(it.data.as_slice()),
        _ => it.title(),
    };
    let lower = lower_text(text.as_str());
    let hay = chars_of(lower.as_str());
    contains_chars(hay.as_slice(), q)
}

/// The first entries that a query shows are the listed ones, once as many
/// as the limit are found or all entries are seen.
proof fn lemma_listed_prefix(s: Seq<ItemView>, q: Seq<char>, limit: usize, k: int)
    requires
        0 <= k <= s.len(),
        s.reverse().subrange(0, k).filter(shown(q)).len() <= limit,
        k == s.len() || s.reverse().subrange(0, k).filter(shown(q)).len() == limit,
    ensures
        s.reverse().subrange(0, k).filter(shown(q)) == listed(s, q, limit),
{
    let rev = s.reverse();
    let a = rev.subrange(0, k);
    let b = rev.subrange(k, rev.len() as int);
    assert(rev =~= a + b);
    Seq::filter_distributes_over_add(a, b, shown(q));
    let m = rev.filter(shown(q));
    if k == s.len() {
        assert(b.filter(shown(q)).len() <= b.len()) by {
            b.lemma_filter_len(shown(q));
        }
        assert(m =~= a.filter(shown(q)));
    } else {
        assert(m.subrange(0, limit as int) =~= a.filter(shown(q)));
        if m.len() <= limit {
            assert(m =~= a.filter(shown(q)));
        }
    }
}

/// Whether every text among `l` that is valid UTF-8 reads as the text it
/// encodes.
pub open spec fn texts_read_plainly(l: Seq<ItemView>) -> bool {
    forall|k: int|
        0 <= k < l.len() && (#[trigger] l[k]).kind == ItemKind::Text ==> reads_plainly(l[k].data)
}

/// Whether what `cmd` reads of the entries `s` as text reads as the text it
/// encodes, where it is valid UTF-8: the texts `LIST` shows, and the text
/// or html that `GET` and `PASTE` find.
pub open spec fn read_plainly(s: Seq<ItemView>, cmd: CommandView) -> bool {
    match cmd {
        CommandView::List { limit, query } => texts_read_plainly(listed(s, query, limit)),
        CommandView::Get(Some(id)) | CommandView::Paste(Some(id)) => {
            let k = first_index(s, has_id(id));
            0 <= k < s.len() && s[k].kind != ItemKind::Image ==> reads_plainly(s[k].data)
        },
        _ => true,
    }
}

/// The reply to `LIST` over `items` for the lower-case query `q`.
fn list_reply(items: &[Item], q: &str, limit: usize) -> (text: String)
    ensures
        text@ == list_text(listed(views(items@), q@, limit)),
        texts_read_plainly(listed(views(items@), q@, limit)),
{
    let qv = chars_of(q);
    let n = items.len();
    let ghost s = views(items@);
    let ghost rev = s.reverse();
    let ghost p = shown(q@);
    let mut body = String::new();
    let mut count: usize = 0;
    let mut i: usize = n;
    proof {
        reveal(Seq::filter);
        assert(rev.subrange(0, 0).filter(p) =~= Seq::<ItemView>::empty());
    }
    while i > 0 && count < limit
        invariant
            i <= n,
            n == items.len(),
            s == views(items@),
            rev == s.reverse(),
            p == shown(q@),
            qv@ == q@,
            body@ == rows(rev.subrange(0, n - i).filter(p)),
            texts_read_plainly(rev.subrange(0, n - i).filter(p)),
            count == rev.subrange(0, n - i).filter(p).len(),
            count <= limit,
        decreases i,
    {
        let it = &items[i - 1];
        let ghost done = rev.subrange(0, n - i);
        let ghost next = rev.subrange(0, n - i + 1);
        proof {
            reveal(Seq::filter);
            assert(next.drop_last() =~= done);
            assert(next.last() == it@);
            done.lemma_filter_len(p);
        }
        if qv.len() == 0 || matches_query(it, qv.as_slice()) {
            row_into(&mut body, it);
            count += 1;
            proof {
                let f = next.filter(p);
                assert(f.drop_last() =~= done.filter(p));
                assert forall|k: int| 0 <= k < f.len() && (#[trigger] f[k]).kind
                    == ItemKind::Text implies reads_plainly(f[k].data) by {
                    if k < f.len() - 1 {
                        assert(f[k] == done.filter(p)[k]);
                    }
                }
            }
        }
        i -= 1;
    }
    proof {
        lemma_listed_prefix(s, q@, limit, n - i);
    }
    let mut out = String::from_str("OK ");
    push_decimal(&mut out, count as u64);
    push_char(&mut out, '\n');
    out.append(body.as_str());
    assert(out@ =~= list_text(listed(s, q@, limit)));
    out
}

/// Where the bytes `data` of an entry with the path `path` are.
fn source_of(data: Vec<u8>, path: &Option<String>) -> (src: Source)
    ensures
        src@ == bytes_of(data@, opt_text(*path)),
{
    if data.len() == 0 {
        match path {
            Some(p) => Source::File(p.clone()),
            None => Source::Inline(data),
        }
    } else {
        Source::Inline(data)
    }
}

/// The content type of an image entry.
fn image_mime(mime: &Option<String>) -> (m: String)
    ensures
        m@ == (match opt_text(*mime) {
            Some(t) => t,
            None => "image/png"@,
        }),
{
    match mime {
        Some(t) => t.clone(),
        None => String::from_str("image/png"),
    }
}

/// The reply to `GET` for the entry `it`.
fn get_reply(it: &Item) -> (r: Reply)
    ensures
        r@ == get_entry(it@),
        it.kind != ItemKind::Image ==> reads_plainly(it.data@),
{
    match it.kind {
        ItemKind::Text => {
            let mut out = String::from_str("TEXT\n");
            out.append(lossy_text(it.data.as_slice()).as_str());
            Reply::Line(out)
        },
        ItemKind::Html => {
            let mut out = String::from_str("HTML\n");
            out.append(lossy_text(it.data.as_slice()).as_str());
            Reply::Line(out)
        },
        ItemKind::Image => Reply::Image {
            mime: image_mime(&it.mime),
            source: source_of(slice_to_vec(it.data.as_slice()), &it.file_path),
        },
    }
}

/// The reply to `PASTE` for the entry `it`.
fn paste_request(it: &Item) -> (r: Reply)
    ensures
        r@ == paste_entry(it@),
        it.kind != ItemKind::Image ==> reads_plainly(it.data@),
{
    match it.kind {
        ItemKind::Text => {
            let text = lossy_text(it.data.as_slice());
            Reply::Paste {
                kind: ItemKind::Text,
                mime: String::from_str("text/plain;charset=utf-8"),
                source: Source::Inline(text.as_str().as_bytes_vec()),
            }
        },
        ItemKind::Html => {
            let html = lossy_text(it.data.as_slice());
            Reply::Paste {
                kind: ItemKind::Html,
                mime: String::from_str("text/html"),
                source: source_of(html.as_str().as_bytes_vec(), &it.file_path),
            }
        },
        ItemKind::Image => Reply::Paste {
            kind: ItemKind::Image,
            mime: image_mime(&it.mime),
            source: source_of(slice_to_vec(it.data.as_slice()), &it.file_path),
        },
    }
}

/// The reply to a successful or refused insertion.
fn added_reply(id: Option<u64>, refusal: &str) -> (r: Reply)
    ensures
        r@ == ReplyView::Line(
            match id {
                Some(i) => "OK "@ + decimal(i as nat),
                None => refusal@,
            },
        ),
{
    match id {
        Some(i) => {
            let mut out = String::from_str("OK ");
            push_decimal(&mut out, i);
            Reply::Line(out)
        },
        None => Reply::Line(String::from_str(refusal)),
    }
}

/// What handling a command gives back: the reply, and the text to save as
/// the durable log where the command changed the history and a store is
/// set.
pub struct Outcome {
    pub reply: Reply,
    pub save: Option<String>,
}

/// The value of an [`Outcome`].
pub ghost struct OutcomeView {
    pub reply: ReplyView,
    pub save: Option<Seq<char>>,
}

impl View for Outcome {
    type V = OutcomeView;

    open spec fn view(&self) -> OutcomeView {
        OutcomeView { reply: self.reply@, save: opt_text(self.save) }
    }
}

/// The daemon's state: the history, and the store of the durable log where
/// one is set.
pub struct State {
    pub history: History,
    pub persist: Option<FileStore>,
}

impl State {
    /// Whether `after` and `out` are what handling `cmd` at time `now` in the
    /// state `self` gives.
    pub open spec fn steps_to(self, cmd: CommandView, now: i64, after: State, out: OutcomeView) -> bool {
        let r = stepped(self.history.config(), self.history@, self.history.next_id(), cmd, now);
        &&& after.history@ == r.items
        &&& after.history.next_id() == r.next_id
        &&& after.history.config() == self.history.config()
        &&& after.persist == self.persist
        &&& out.reply == r.reply
        &&& out.save == if r.save && self.persist is Some {
            Some(log_text(r.items))
        } else {
            None
        }
    }

    /// Whether `cmd` can be handled: it inserts nothing that takes a new
    /// identifier, or an identifier is left to give.
    pub open spec fn can_step(self, cmd: CommandView) -> bool {
        match added(cmd) {
            Some(cand) => self.history.can_take(cand),
            None => true,
        }
    }

    /// Whether `cmd` can be handled.
    pub fn can_apply(&self, cmd: &Command) -> (b: bool)
        ensures
            b == self.can_step(cmd@),
    {
        match cmd {
            Command::AddText(data) => {
                let b = self.history.can_insert(ItemKind::Text, data);
                assert(b == self.history.can_take(candidate(ItemKind::Text, data@)));
                b
            },
            Command::AddHtml(data) => {
                let b = self.history.can_insert(ItemKind::Html, data);
                assert(b == self.history.can_take(candidate(ItemKind::Html, data@)));
                b
            },
            _ => true,
        }
    }

    /// A state with an empty history under the default limits and no store.
    pub fn new_default() -> (st: Self)
        ensures
            st.history@ == Seq::<ItemView>::empty(),
            st.history.next_id() == 1,
            st.history.ids_below_next(),
            st.history.config() == (HistoryConfig {
                max_items: 200,
                max_text_bytes: 100_000,
                max_image_bytes: 2_000_000,
                ttl_secs: 0,
            }),
            st.persist is None,
    {
        State { history: History::with_config(HistoryConfig::default()), persist: None }
    }

    /// A state for the store at `path` under the limits of `cfg`, holding
    /// the entries of the log text `saved` if there is one. Records without
    /// a time are seen at the time the clock gives.
    pub fn with_file_persist(path: &str, cfg: &DaemonConfig, saved: Option<&str>) -> (st: Self)
        ensures
            st.history.config() == cfg.history_limits(),
            st.history.next_id() == id_after(st.history@),
            crate::history::max_id(st.history@) < u64::MAX ==> st.history.ids_below_next(),
            st.persist is Some && st.persist.unwrap().path_view() == path@,
            match saved {
                Some(t) => exists|now: i64|
                    now >= 0 && st.history@ == #[trigger] decoded_log(t@, now),
                None => st.history@ == Seq::<ItemView>::empty(),
            },
    {
        let mut history = History::with_config(
            HistoryConfig {
                max_items: cfg.max_items,
                max_text_bytes: cfg.max_text_bytes,
                max_image_bytes: cfg.max_image_bytes,
                ttl_secs: cfg.ttl_secs,
            },
        );
        match saved {
            Some(t) => {
                let items = FileStore::decode_log(t);
                history.rebuild_from(items);
            },
            None => {
                assert(crate::history::max_id(Seq::<ItemView>::empty()) == 0);
            },
        }
        State { history, persist: Some(FileStore::new(path)) }
    }

    /// The text to save as the durable log, where a store is set.
    pub fn persist_if_needed(&self) -> (text: Option<String>)
        ensures
            opt_text(text) == if self.persist is Some {
                Some(log_text(self.history@))
            } else {
                None
            },
    {
        match &self.persist {
            Some(_) => Some(FileStore::encode_log(self.history.all())),
            None => None,
        }
    }

    /// The outcome with `reply`, and the log to save where `changed`.
    fn outcome(&self, reply: Reply, changed: bool) -> (out: Outcome)
        ensures
            out.reply == reply,
            opt_text(out.save) == if changed && self.persist is Some {
                Some(log_text(self.history@))
            } else {
                None
            },
    {
        let save = if changed {
            self.persist_if_needed()
        } else {
            None
        };
        Outcome { reply, save }
    }

    /// Handles the command `cmd` at time `now`.
    pub fn apply(&mut self, cmd: Command, now: i64) -> (out: Outcome)
        requires
            old(self).can_step(cmd@),
        ensures
            old(self).steps_to(cmd@, now, *final(self), out@),
            read_plainly(old(self).history@, cmd@),
            old(self).history.ids_below_next() ==> final(self).history.ids_below_next(),
    {
        match cmd {
            Command::AddText(data) => {
                let id = self.history.try_push_at(
                    Item {
                        id: 0,
                        kind: ItemKind::Text,
                        data,
                        pinned: false,
                        ts_ms: 0,
                        mime: Some(String::from_str("text/plain")),
                        file_path: None,
                    },
                    now,
                );
                self.outcome(added_reply(id, "ERR text too large"), id.is_some())
            },
            Command::AddHtml(data) => {
                let id = self.history.try_push_at(
                    Item {
                        id: 0,
                        kind: ItemKind::Html,
                        data,
                        pinned: false,
                        ts_ms: 0,
                        mime: Some(String::from_str("text/html")),
                        file_path: None,
                    },
                    now,
                );
                self.outcome(added_reply(id, "ERR too large"), id.is_some())
            },
            Command::List { limit, query } => {
                let text = list_reply(self.history.all(), query.as_str(), limit);
                self.outcome(Reply::Line(text), false)
            },
            Command::Get(id) => {
                let reply = match id {
                    Some(i) => match self.history.find(i) {
                        Some(it) => get_reply(it),
                        None => Reply::Line(String::from_str("ERR not found")),
                    },
                    None => Reply::Line(String::from_str("ERR not found")),
                };
                self.outcome(reply, false)
            },
            Command::Paste(id) => {
                let reply = match id {
                    Some(i) => match self.history.find(i) {
                        Some(it) => paste_request(it),
                        None => Reply::Line(String::from_str("ERR not found")),
                    },
                    None => Reply::Line(String::from_str("ERR not found")),
                };
                self.outcome(reply, false)
            },
            Command::Pin(args) => match args {
                Some((id, flag)) => {
                    self.history.pin(id, flag);
                    self.outcome(Reply::Line(String::from_str("OK")), true)
                },
                None => self.outcome(Reply::Line(String::from_str("ERR invalid args")), false),
            },
            Command::Delete(arg) => match arg {
                Some(id) => {
                    if self.history.delete(id) {
                        self.outcome(Reply::Line(String::from_str("OK")), true)
                    } else {
                        proof {
                            lemma_delete_nothing(old(self).history@, id);
                        }
                        self.outcome(Reply::Line(String::from_str("ERR not found")), false)
                    }
                },
                None => self.outcome(Reply::Line(String::from_str("ERR invalid args")), false),
            },
            Command::Clear => {
                self.history.clear();
                self.outcome(Reply::Line(String::from_str("OK")), true)
            },
            Command::Unknown => self.outcome(Reply::Line(String::from_str("ERR unknown")), false),
        }
    }

    /// Handles one line of the protocol at the time the clock gives, where
    /// the command can be handled, and says so where it cannot: then nothing
    /// changes.
    pub fn try_handle_command(&mut self, line: &str) -> (done: Option<Outcome>)
        ensures
            done is Some <==> old(self).can_step(command_of(line@)),
            match done {
                Some(out) => exists|now: i64|
                    now >= 0 && #[trigger] old(self).steps_to(
                        command_of(line@),
                        now,
                        *final(self),
                        out@,
                    ),
                None => *final(self) == *old(self),
            },
            final(self).persist == old(self).persist,
            final(self).history.config() == old(self).history.config(),
            old(self).history.ids_below_next() ==> final(self).history.ids_below_next(),
            done is Some ==> read_plainly(old(self).history@, command_of(line@)),
    {
        let cmd = parse_command(line);
        if self.can_apply(&cmd) {
            Some(self.handle_command(line))
        } else {
            None
        }
    }

    /// Handles one line of the protocol at the time the clock gives.
    pub fn handle_command(&mut self, line: &str) -> (out: Outcome)
        requires
            old(self).can_step(command_of(line@)),
        ensures
            exists|now: i64|
                now >= 0 && #[trigger] old(self).steps_to(
                    command_of(line@),
                    now,
                    *final(self),
                    out@,
                ),
            final(self).persist == old(self).persist,
            final(self).history.config() == old(self).history.config(),
            old(self).history.ids_below_next() ==> final(self).history.ids_below_next(),
            old(self).persist is None ==> out.save is None,
            read_plainly(old(self).history@, command_of(line@)),
    {
        let cmd = parse_command(line);
        let now = now_ms();
        let out = self.apply(cmd, now);
        assert(now >= 0 && old(self).steps_to(command_of(line@), now, *self, out@));
        out
    }
}

/// Deleting an identifier that is not held leaves the entries as they were.
pub proof fn lemma_delete_nothing(s: Seq<ItemView>, id: u64)
    requires
        first_index(s, has_id(id)) >= s.len(),
    ensures
        s.filter(lacks_id(id)) == s,
    decreases s.len(),
{
    reveal(Seq::filter);
    crate::history::lemma_first_from(s, has_id(id), 0);
    if s.len() > 0 {
        let init = s.drop_last();
        crate::history::lemma_first_from(init, has_id(id), 0);
        assert(forall|j: int| 0 <= j < init.len() ==> init[j] == s[j]);
        assert(first_index(init, has_id(id)) >= init.len()) by {
            let k = first_index(init, has_id(id));
            if k < init.len() {
                assert(has_id(id)(init[k]));
                assert(init[k] == s[k]);
            }
        }
        lemma_delete_nothing(init, id);
        assert(init.push(s.last()) =~= s);
    }
}

} // verus!
