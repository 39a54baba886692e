use clipdash::backend::{ClipData, ClipboardBackend};
use clipdash::clock::{epoch_ms, now_ms};
use clipdash::{Item, ItemKind};

struct Dummy;
impl ClipboardBackend for Dummy {
    fn read_current(&self) -> Option<ClipData> {
        None
    }
}

#[test]
fn backend_trait_compiles() {
    let b = Dummy;
    assert!(b.read_current().is_none());
}

#[test]
fn title_text_truncates() {
    let s = "hello".repeat(20);
    let item = Item {
        id: 1,
        kind: ItemKind::Text,
        data: s.as_bytes().to_vec(),
        pinned: false,
        ts_ms: 0,
        mime: None,
        file_path: None,
    };
    let t = item.title();
    assert!(t.len() <= 40);
}

fn with(kind: ItemKind, data: &[u8]) -> Item {
    Item { id: 1, kind, data: data.to_vec(), pinned: false, ts_ms: 0, mime: None, file_path: None }
}

#[test]
fn title_is_the_first_forty_characters() {
    let s = "0123456789".repeat(5);
    assert_eq!(with(ItemKind::Text, s.as_bytes()).title(), "0123456789".repeat(4));
    assert_eq!(with(ItemKind::Text, b"short").title(), "short");
    assert_eq!(with(ItemKind::Text, b"").title(), "");
}

#[test]
fn title_counts_characters_not_bytes() {
    let s = "é".repeat(45);
    let t = with(ItemKind::Text, s.as_bytes()).title();
    assert_eq!(t.chars().count(), 40);
    assert_eq!(t, "é".repeat(40));
}

#[test]
fn title_replaces_malformed_bytes() {
    let t = with(ItemKind::Text, &[b'a', 0xff, b'b']).title();
    assert_eq!(t, "a\u{fffd}b");
}

#[test]
fn title_of_other_kinds_is_a_placeholder() {
    assert_eq!(with(ItemKind::Image, b"whatever").title(), "[image]");
    assert_eq!(with(ItemKind::Html, b"<p>x</p>").title(), "[html]");
}

#[test]
fn clock_reading_in_milliseconds() {
    assert_eq!(epoch_ms(0, 0), 0);
    assert_eq!(epoch_ms(1, 5), 1005);
    assert_eq!(epoch_ms(1_700_000_000, 123), 1_700_000_000_123);
    assert_eq!(epoch_ms(9_223_372_036_854_775, 807), i64::MAX);
    assert_eq!(epoch_ms(9_223_372_036_854_775, 806), i64::MAX - 1);
    assert_eq!(epoch_ms(9_223_372_036_854_775, 808), i64::MAX);
    assert_eq!(epoch_ms(u64::MAX, 999), i64::MAX);
    let a = now_ms();
    assert!(a > 1_500_000_000_000);
}
