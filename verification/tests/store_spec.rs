use clipdash::store::{hex_to_bytes, hex_val, nibble_to_hex, FileStore, Store};
use clipdash::{Item, ItemKind};

fn mk(n: &str) -> Item {
    Item {
        id: 0,
        kind: ItemKind::Text,
        data: n.as_bytes().to_vec(),
        pinned: false,
        ts_ms: 0,
        mime: Some("text/plain".into()),
        file_path: None,
    }
}

#[test]
fn store_roundtrip_preserves_item_ordering() {
    let mut s = Store::new_in_memory();
    s.put(mk("a"));
    s.put(mk("b"));
    s.put(mk("c"));
    let titles: Vec<String> = s.all().iter().map(|i| i.title()).collect();
    let expected: Vec<String> = vec!["a".into(), "b".into(), "c".into()];
    assert_eq!(titles, expected);
}

#[test]
fn creates_store() {
    let _s = Store::new_in_memory();
}

#[test]
fn encode_decode_roundtrip() {
    let it = Item {
        id: 42,
        kind: ItemKind::Text,
        data: b"hello".to_vec(),
        pinned: true,
        ts_ms: 123456,
        mime: Some("text/plain".into()),
        file_path: None,
    };
    let line = FileStore::encode_item(&it);
    let dec = FileStore::decode_item(&line).unwrap();
    assert_eq!(dec.id, 42);
    assert!(dec.pinned);
    assert_eq!(String::from_utf8(dec.data).unwrap(), "hello");
    assert_eq!(dec.ts_ms, 123456);
    assert_eq!(dec.mime.as_deref(), Some("text/plain"));
}

#[test]
fn record_has_the_documented_layout() {
    let mut it = mk("hi");
    it.id = 7;
    it.pinned = true;
    it.ts_ms = -5;
    it.mime = Some("a|b".into());
    it.file_path = Some("/p|q".into());
    assert_eq!(FileStore::encode_item(&it), "7|T|1|-5|a:b|/p:q|2|6869");
    let mut img = mk("");
    img.kind = ItemKind::Image;
    img.mime = None;
    img.data = vec![0x00, 0x0f, 0xa5, 0xff];
    assert_eq!(FileStore::encode_item(&img), "0|I|0|0|||4|000fa5ff");
    let mut html = mk("");
    html.kind = ItemKind::Html;
    html.id = u64::MAX;
    html.ts_ms = i64::MIN;
    assert_eq!(
        FileStore::encode_item(&html),
        "18446744073709551615|H|0|-9223372036854775808|text/plain||0|"
    );
}

#[test]
fn decode_reads_every_layout() {
    let v4 = FileStore::decode_item_at("5|I|1|99|image/png|/c/f.png|2|0aFF", 1000).unwrap();
    assert_eq!(v4.id, 5);
    assert_eq!(v4.kind, ItemKind::Image);
    assert!(v4.pinned);
    assert_eq!(v4.ts_ms, 99);
    assert_eq!(v4.mime.as_deref(), Some("image/png"));
    assert_eq!(v4.file_path.as_deref(), Some("/c/f.png"));
    assert_eq!(v4.data, vec![0x0a, 0xff]);
    let v3 = FileStore::decode_item_at("5|H|0|99|text/html|1|41", 1000).unwrap();
    assert_eq!(v3.kind, ItemKind::Html);
    assert_eq!(v3.mime.as_deref(), Some("text/html"));
    assert_eq!(v3.file_path, None);
    assert_eq!(v3.data, b"A".to_vec());
    let v2 = FileStore::decode_item_at("5|T|0|99|1|41", 1000).unwrap();
    assert_eq!(v2.ts_ms, 99);
    assert_eq!(v2.mime, None);
    assert_eq!(v2.data, b"A".to_vec());
    let v1 = FileStore::decode_item_at("5|T|x|1|41", 1000).unwrap();
    assert_eq!(v1.ts_ms, 1000);
    assert!(!v1.pinned);
    assert_eq!(v1.data, b"A".to_vec());
}

#[test]
fn decode_keeps_a_numeric_path() {
    let mut it = mk("payload");
    it.id = 3;
    it.file_path = Some("123".into());
    let back = FileStore::decode_item_at(&FileStore::encode_item(&it), 0).unwrap();
    assert_eq!(back.file_path.as_deref(), Some("123"));
    assert_eq!(back.data, b"payload".to_vec());
}

#[test]
fn decode_skips_malformed_records() {
    for bad in [
        "",
        "   ",
        "1|T|0",
        "1|T|0|5",
        "x|T|0|1|text/plain||1|41",
        "-1|T|0|1|text/plain||1|41",
        "1|Q|0|1|text/plain||1|41",
        "1||0|1|text/plain||1|41",
        "1|T|0|soon|text/plain||1|41",
        "1|T|0|1|text/plain||one|41",
        "1|T|0|1|text/plain||2|41",
        "1|T|0|1|text/plain||1|4",
        "1|T|0|1|text/plain||1|4g",
        "18446744073709551616|T|0|1|text/plain||1|41",
    ] {
        assert!(FileStore::decode_item_at(bad, 0).is_none(), "{:?}", bad);
    }
    assert!(FileStore::decode_item_at("+1|Text|1|+1|||0|", 0).is_some());
}

#[test]
fn log_round_trip_keeps_entries_in_order() {
    let mut a = mk("alpha");
    a.id = 1;
    a.pinned = true;
    a.ts_ms = 11;
    let mut b = mk("");
    b.id = 2;
    b.kind = ItemKind::Image;
    b.mime = None;
    b.file_path = Some("/cache/img-1.png".into());
    b.ts_ms = 22;
    let mut c = mk("<b>x</b>");
    c.id = 9;
    c.kind = ItemKind::Html;
    c.mime = Some("text/html".into());
    c.data = vec![0, 1, 2, 254, 255];
    let text = FileStore::encode_log(&[a.clone(), b.clone(), c.clone()]);
    assert!(text.starts_with("CLIPDASHv4\n"));
    assert_eq!(text.lines().count(), 4);
    let back = FileStore::decode_log(&text);
    assert_eq!(back.len(), 3);
    for (x, y) in back.iter().zip([a, b, c].iter()) {
        assert_eq!(x.id, y.id);
        assert_eq!(x.kind, y.kind);
        assert_eq!(x.pinned, y.pinned);
        assert_eq!(x.ts_ms, y.ts_ms);
        assert_eq!(x.data, y.data);
        assert_eq!(x.mime, y.mime);
        assert_eq!(x.file_path, y.file_path);
    }
}

#[test]
fn log_of_nothing_is_the_header() {
    assert_eq!(FileStore::encode_log(&[]), "CLIPDASHv4\n");
    assert!(FileStore::decode_log("CLIPDASHv4\n").is_empty());
    assert!(FileStore::decode_log("").is_empty());
}

#[test]
fn log_with_unknown_header_holds_nothing() {
    let line = "1|T|0|1|text/plain||1|41\n";
    assert!(FileStore::decode_log(&format!("NOTALOG\n{}", line)).is_empty());
    assert!(FileStore::decode_log(&format!("CLIPDASHv5\n{}", line)).is_empty());
    assert!(FileStore::decode_log(&format!("CLIPDASHv\n{}", line)).is_empty());
    for v in 1..=4 {
        let got = FileStore::decode_log(&format!("CLIPDASHv{}\n{}", v, line));
        assert_eq!(got.len(), 1);
    }
}

#[test]
fn log_skips_bad_lines_and_keeps_the_rest() {
    let text = "CLIPDASHv4\n1|T|0|1|||1|41\ngarbage\n\n2|T|0|1|||1|4\n3|T|1|1|||1|42\r\n4|T|0|1|||1|43";
    let got = FileStore::decode_log_at(text, 0);
    let ids: Vec<u64> = got.iter().map(|i| i.id).collect();
    assert_eq!(ids, vec![1, 3, 4]);
    assert_eq!(got[1].data, b"B".to_vec());
}

#[test]
fn log_breaks_on_a_line_feed_in_the_content_type() {
    let mut it = mk("x");
    it.mime = Some("a\nb".into());
    let text = FileStore::encode_log(&[it]);
    assert!(FileStore::decode_log(&text).is_empty());
}

#[test]
fn hex_helpers() {
    assert_eq!(nibble_to_hex(0), '0');
    assert_eq!(nibble_to_hex(9), '9');
    assert_eq!(nibble_to_hex(10), 'a');
    assert_eq!(nibble_to_hex(15), 'f');
    assert_eq!(hex_val('0'), Some(0));
    assert_eq!(hex_val('f'), Some(15));
    assert_eq!(hex_val('A'), Some(10));
    assert_eq!(hex_val('g'), None);
    assert_eq!(hex_to_bytes("00ff7F"), Some(vec![0, 255, 127]));
    assert_eq!(hex_to_bytes(""), Some(vec![]));
    assert_eq!(hex_to_bytes("abc"), None);
    assert_eq!(hex_to_bytes("zz"), None);
}

#[test]
fn file_store_keeps_its_path() {
    let fs = FileStore::new("/tmp/history.v1");
    assert_eq!(fs.path(), "/tmp/history.v1");
}
