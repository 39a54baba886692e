use clipdash::history::{History, HistoryConfig};
use clipdash::{Item, ItemKind};

fn text_item(s: &str) -> Item {
    Item {
        id: 0,
        kind: ItemKind::Text,
        data: s.as_bytes().to_vec(),
        pinned: false,
        ts_ms: 0,
        mime: None,
        file_path: None,
    }
}

fn image_item(n: usize) -> Item {
    Item {
        id: 0,
        kind: ItemKind::Image,
        data: vec![0u8; n],
        pinned: false,
        ts_ms: 0,
        mime: Some("image/png".into()),
        file_path: None,
    }
}

#[test]
fn core_ring_buffer_keeps_pinned_on_trim() {
    let mut h = History::with_config(HistoryConfig {
        max_items: 3,
        ..Default::default()
    });
    let _a = h.push(text_item("a"));
    let b = h.push(text_item("b"));
    h.pin(b, true); // pin b
    let _c = h.push(text_item("c"));
    let _d = h.push(text_item("d")); // exceed capacity
    h.trim();
    let ids: Vec<u64> = h.all().iter().map(|i| i.id).collect();
    assert!(ids.contains(&b), "pinned should remain after trim");
}

#[test]
fn dedup_updates_timestamp_instead_of_growing() {
    let mut h = History::with_config(HistoryConfig {
        max_items: 3,
        ..Default::default()
    });
    let _a1 = h.push(text_item("same"));
    let before = h.len();
    let _a2 = h.push(text_item("same"));
    assert_eq!(before, h.len(), "dedup should not increase length");
}

#[test]
fn large_text_is_rejected_by_config() {
    let mut h = History::with_config(HistoryConfig {
        max_items: 10,
        max_text_bytes: 5,
        max_image_bytes: 10,
        ttl_secs: 0,
    });
    let before = h.len();
    let too_long = "abcdef"; // 6 > 5
    let id = h.try_push(text_item(too_long));
    assert!(id.is_none(), "oversized text should be rejected");
    assert_eq!(before, h.len(), "history length should not grow");
}

#[test]
fn large_image_is_rejected_by_config() {
    let mut h = History::with_config(HistoryConfig {
        max_items: 10,
        max_text_bytes: 100,
        max_image_bytes: 3,
        ttl_secs: 0,
    });
    let before = h.len();
    let id = h.try_push(image_item(5)); // 5 > 3
    assert!(id.is_none(), "oversized image should be rejected");
    assert_eq!(before, h.len(), "history length should not grow");
}

#[test]
fn ttl_prunes_unpinned_but_keeps_pinned() {
    let mut h = History::with_config(HistoryConfig {
        max_items: 10,
        max_text_bytes: 100,
        max_image_bytes: 100,
        ttl_secs: 1,
    });
    let _ida = h.push(text_item("old"));
    let idb = h.push(text_item("old pinned"));
    h.pin(idb, true);
    let idc = h.push(text_item("fresh"));
    // make a/b very old, keep c fresh
    let mut items = h.all().to_vec();
    for it in &mut items {
        if it.id != idc {
            it.ts_ms = 0;
        }
    }
    h.rebuild_from(items);
    h.prune_ttl();
    let titles: Vec<String> = h.all().iter().map(|i| i.title()).collect();
    assert!(titles.iter().any(|t| t.contains("fresh")));
    // pinned old should remain
    assert!(h.all().iter().any(|i| i.id == idb));
    // unpinned old should be gone
    assert!(!titles.iter().any(|t| t == "old"));
}

#[test]
fn ids_start_at_one_and_rise() {
    let mut h = History::with_config(HistoryConfig::default());
    assert_eq!(h.len(), 0);
    assert_eq!(h.push(text_item("a")), 1);
    assert_eq!(h.push(text_item("b")), 2);
    assert_eq!(h.push(text_item("a")), 1);
    assert_eq!(h.push(text_item("c")), 3);
    let ids: Vec<u64> = h.all().iter().map(|i| i.id).collect();
    assert_eq!(ids, vec![2, 1, 3]);
}

#[test]
fn dedup_merges_pin_and_fills_missing_fields() {
    let mut h = History::with_config(HistoryConfig::default());
    let id = h.try_push_at(text_item("x"), 10).unwrap();
    let mut again = text_item("x");
    again.pinned = true;
    again.mime = Some("text/plain".into());
    again.file_path = Some("/tmp/x".into());
    assert_eq!(h.try_push_at(again, 25), Some(id));
    assert_eq!(h.len(), 1);
    let e = &h.all()[0];
    assert!(e.pinned);
    assert_eq!(e.ts_ms, 25);
    assert_eq!(e.mime.as_deref(), Some("text/plain"));
    assert_eq!(e.file_path.as_deref(), Some("/tmp/x"));
    let mut third = text_item("x");
    third.mime = Some("other/type".into());
    assert_eq!(h.try_push_at(third, 30), Some(id));
    let e = &h.all()[0];
    assert!(e.pinned);
    assert_eq!(e.mime.as_deref(), Some("text/plain"));
}

#[test]
fn dedup_comes_before_the_size_limit() {
    let mut h = History::with_config(HistoryConfig {
        max_items: 10,
        max_text_bytes: 100,
        max_image_bytes: 100,
        ttl_secs: 0,
    });
    let kept = h.all().to_vec();
    let mut big = text_item("0123456789");
    big.id = 7;
    let mut items = kept;
    items.push(big);
    h.rebuild_from(items);
    let mut small = History::with_config(HistoryConfig {
        max_items: 10,
        max_text_bytes: 3,
        max_image_bytes: 3,
        ttl_secs: 0,
    });
    small.rebuild_from(h.all().to_vec());
    assert_eq!(small.try_push(text_item("0123456789")), Some(7));
    assert_eq!(small.try_push(text_item("abcdefghij")), None);
    assert_eq!(small.len(), 1);
}

#[test]
fn html_has_no_size_limit() {
    let mut h = History::with_config(HistoryConfig {
        max_items: 10,
        max_text_bytes: 1,
        max_image_bytes: 1,
        ttl_secs: 0,
    });
    let mut it = text_item("<p>long enough</p>");
    it.kind = ItemKind::Html;
    assert_eq!(h.try_push(it), Some(1));
}

#[test]
fn trim_drops_oldest_unpinned_first() {
    let mut h = History::with_config(HistoryConfig {
        max_items: 2,
        ..Default::default()
    });
    let a = h.push(text_item("a"));
    h.pin(a, true);
    let _b = h.push(text_item("b"));
    let c = h.push(text_item("c"));
    let d = h.push(text_item("d"));
    let ids: Vec<u64> = h.all().iter().map(|i| i.id).collect();
    assert_eq!(ids, vec![a, d]);
    assert!(!ids.contains(&c));
}

#[test]
fn trim_keeps_all_when_only_pinned_are_left() {
    let mut h = History::with_config(HistoryConfig {
        max_items: 1,
        ..Default::default()
    });
    let mut items = Vec::new();
    for (k, name) in ["a", "b", "c"].iter().enumerate() {
        let mut it = text_item(name);
        it.id = (k + 1) as u64;
        it.pinned = true;
        items.push(it);
    }
    h.rebuild_from(items);
    h.trim();
    assert_eq!(h.len(), 3);
    let e = h.push(text_item("new"));
    assert_eq!(e, 4);
    assert_eq!(h.len(), 3);
    assert!(h.all().iter().all(|i| i.pinned));
}

#[test]
fn prune_at_a_given_time_is_exact() {
    let mut h = History::with_config(HistoryConfig {
        max_items: 10,
        max_text_bytes: 100,
        max_image_bytes: 100,
        ttl_secs: 2,
    });
    let mut items = Vec::new();
    for (k, ts) in [0i64, 1000, 3000, 3001].iter().enumerate() {
        let mut it = text_item(&format!("t{}", k));
        it.id = (k + 1) as u64;
        it.ts_ms = *ts;
        items.push(it);
    }
    items[0].pinned = true;
    h.rebuild_from(items);
    h.prune_ttl_at(5000);
    let ids: Vec<u64> = h.all().iter().map(|i| i.id).collect();
    assert_eq!(ids, vec![1, 3, 4]);
}

#[test]
fn prune_without_ttl_keeps_everything() {
    let mut h = History::with_config(HistoryConfig::default());
    let mut it = text_item("ancient");
    it.id = 1;
    it.ts_ms = -1_000_000;
    h.rebuild_from(vec![it]);
    h.prune_ttl_at(i64::MAX);
    assert_eq!(h.len(), 1);
}

#[test]
fn delete_removes_pinned_entries_too() {
    let mut h = History::with_config(HistoryConfig::default());
    let a = h.push(text_item("a"));
    h.pin(a, true);
    assert!(h.delete(a));
    assert!(!h.delete(a));
    assert_eq!(h.len(), 0);
}

#[test]
fn pin_of_unknown_id_changes_nothing() {
    let mut h = History::with_config(HistoryConfig::default());
    let a = h.push(text_item("a"));
    h.pin(a + 100, true);
    assert!(!h.all()[0].pinned);
    h.pin(a, true);
    assert!(h.all()[0].pinned);
    h.pin(a, false);
    assert!(!h.all()[0].pinned);
}

#[test]
fn clear_drops_pinned_and_keeps_counting() {
    let mut h = History::with_config(HistoryConfig::default());
    let a = h.push(text_item("a"));
    h.pin(a, true);
    h.clear();
    assert_eq!(h.len(), 0);
    assert_eq!(h.push(text_item("b")), a + 1);
}

#[test]
fn rebuild_resets_next_id_past_the_maximum() {
    let mut h = History::with_config(HistoryConfig::default());
    let mut x = text_item("x");
    x.id = 41;
    let mut y = text_item("y");
    y.id = 7;
    h.rebuild_from(vec![x, y]);
    let ids: Vec<u64> = h.all().iter().map(|i| i.id).collect();
    assert_eq!(ids, vec![41, 7]);
    assert_eq!(h.push(text_item("z")), 42);
    h.rebuild_from(Vec::new());
    assert!(h.has_spare_id());
    assert_eq!(h.push(text_item("z")), 1);
    let mut top = text_item("top");
    top.id = u64::MAX;
    h.rebuild_from(vec![top]);
    assert!(!h.has_spare_id());
}

#[test]
fn find_gives_the_first_entry_with_the_id() {
    let mut h = History::with_config(HistoryConfig::default());
    let a = h.push(text_item("a"));
    assert_eq!(h.find(a).map(|i| i.data.clone()), Some(b"a".to_vec()));
    assert!(h.find(a + 1).is_none());
}

#[test]
fn default_history_is_empty_and_counts_from_zero() {
    let mut h = History::default();
    assert_eq!(h.len(), 0);
    assert_eq!(h.push(text_item("a")), 0);
    assert_eq!(h.push(text_item("b")), 1);
}

#[test]
fn insertion_needs_a_spare_id_only_for_new_entries() {
    let mut h = History::with_config(HistoryConfig {
        max_items: 10,
        max_text_bytes: 4,
        max_image_bytes: 4,
        ttl_secs: 0,
    });
    let mut top = text_item("held");
    top.id = u64::MAX;
    h.rebuild_from(vec![top]);
    assert!(!h.has_spare_id());
    assert!(h.can_insert(ItemKind::Text, &b"held".to_vec()));
    assert!(h.can_insert(ItemKind::Text, &b"too long".to_vec()));
    assert!(!h.can_insert(ItemKind::Text, &b"new".to_vec()));
    assert!(!h.can_insert(ItemKind::Html, &b"held".to_vec()));
    assert_eq!(h.try_push(text_item("held")), Some(u64::MAX));
    assert_eq!(h.try_push(text_item("too long")), None);
    assert_eq!(h.len(), 1);
}
