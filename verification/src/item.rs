//! A clipboard entry and its mathematical view.

use crate::text::{lossy_text, reads_plainly, utf8_lossy};
use vstd::prelude::*;
use vstd::string::{StrSliceExecFns, StringExecFns};

verus! {

/// What an entry holds.
#[derive(Debug, Clone, Copy, PartialEq, Eq, Structural)]
pub enum ItemKind {
    Text,
    Image,
    Html,
}

/// One retained clipboard capture.
#[derive(Debug, Clone)]
pub struct Item {
    pub id: u64,
    pub kind: ItemKind,
    pub data: Vec<u8>,
    pub pinned: bool,
    pub ts_ms: i64,
    pub mime: Option<String>,
    pub file_path: Option<String>,
}

/// The value of an [`Item`]: its fields with collections taken as sequences.
pub ghost struct ItemView {
    pub id: u64,
    pub kind: ItemKind,
    pub data: Seq<u8>,
    pub pinned: bool,
    pub ts_ms: i64,
    pub mime: Option<Seq<char>>,
    pub file_path: Option<Seq<char>>,
}

/// The view of an optional string.
pub open spec fn opt_text(s: Option<String>) -> Option<Seq<char>> {
    match s {
        Some(t) => Some(t@),
        None => None,
    }
}

impl View for Item {
    type V = ItemView;

    open spec fn view(&self) -> ItemView {
        ItemView {
            id: self.id,
            kind: self.kind,
            data: self.data@,
            pinned: self.pinned,
            ts_ms: self.ts_ms,
            mime: opt_text(self.mime),
            file_path: opt_text(self.file_path),
        }
    }
}

/// The title shown for an entry: the first 40 characters of a text, read as
/// UTF-8 with malformed bytes replaced, and a fixed placeholder for the
/// other kinds.
pub open spec fn title_of(v: ItemView) -> Seq<char> {
    match v.kind {
        ItemKind::Text => {
            let t = utf8_lossy(v.data);
            if t.len() <= 40 {
                t
            } else {
                t.subrange(0, 40)
            }
        },
        ItemKind::Image => "[image]"@,
        ItemKind::Html => "[html]"@,
    }
}

impl Item {
    /// The title shown for this entry.
    pub fn title(&self) -> (t: String)
        ensures
            t@ == title_of(self@),
            self.kind == ItemKind::Text ==> reads_plainly(self.data@),
    {
        match self.kind {
            ItemKind::Text => {
                let s = lossy_text(self.data.as_slice());
                if s.as_str().unicode_len() <= 40 {
                    s
                } else {
                    String::from_str(s.as_str().substring_char(0, 40))
                }
            },
            ItemKind::Image => String::from_str("[image]"),
            ItemKind::Html => String::from_str("[html]"),
        }
    }
}

/// The views of a sequence of items, in order.
pub open spec fn views(items: Seq<Item>) -> Seq<ItemView> {
    items.map_values(|it: Item| it@)
}

} // verus!
