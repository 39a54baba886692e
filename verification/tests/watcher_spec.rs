use clipdash::backend::{ClipData, ClipKind};
use clipdash::cache::{plan_cleanup, CacheFile};
use clipdash::config::{apply_config_line, parse_config};
use clipdash::daemon::DaemonConfig;
use clipdash::watcher::{is_valid_image_bytes, looks_like_html, plan_capture, Capture, Watcher};
use clipdash::ItemKind;

#[test]
fn html_is_told_from_plain_text() {
    assert!(looks_like_html("<!DOCTYPE html><title>x</title>"));
    assert!(looks_like_html("  <HTML>\n"));
    assert!(looks_like_html("some <div class=a>text"));
    assert!(looks_like_html("text with a closing </ tag"));
    assert!(looks_like_html("a <custom-tag> here"));
    assert!(looks_like_html("x <p"));
    assert!(!looks_like_html(""));
    assert!(!looks_like_html("   \n\t"));
    assert!(!looks_like_html("just words"));
    assert!(!looks_like_html("1 < 2 and 3 > 2"));
    assert!(!looks_like_html("a <b without an end"));
    assert!(!looks_like_html("<1> then <b>"));
    assert!(looks_like_html("\u{00a0}\n <!doctype HTML>\u{2028}"));
    assert!(!looks_like_html("\u{00a0}\u{3000}\u{2003}"));
    assert!(looks_like_html("\u{200b}<em>x</em>"));
}

#[test]
fn image_bytes_are_checked_against_the_content_type() {
    let mut png = vec![0x89, b'P', b'N', b'G', 0x0D, 0x0A, 0x1A, 0x0A];
    png.extend_from_slice(&[0; 8]);
    assert!(is_valid_image_bytes("image/png", &png));
    assert!(!is_valid_image_bytes("image/jpeg", &png));
    assert!(!is_valid_image_bytes("image/png", &png[..11]));
    let mut jpg = vec![0xFF, 0xD8, 0xFF];
    jpg.extend_from_slice(&[0; 9]);
    assert!(is_valid_image_bytes("image/jpeg", &jpg));
    assert!(is_valid_image_bytes("image/jpg", &jpg));
    assert!(!is_valid_image_bytes("image/png", &jpg));
    let webp = b"RIFF\x00\x00\x00\x00WEBPVP8 ".to_vec();
    assert!(is_valid_image_bytes("image/webp", &webp));
    assert!(!is_valid_image_bytes("image/webp", b"RIFF\x00\x00\x00\x00WAVEfmt "));
    assert!(!is_valid_image_bytes("image/gif", &png));
}

#[test]
fn watcher_reports_only_changes() {
    let mut w = Watcher::new();
    assert!(w.observe(ClipKind::Text, b"a"));
    assert!(!w.observe(ClipKind::Text, b"a"));
    assert!(w.observe(ClipKind::Html, b"a"));
    assert!(w.observe(ClipKind::Html, b"ab"));
    assert!(!w.observe(ClipKind::Html, b"ab"));
    assert!(w.observe(ClipKind::Text, b""));
    assert!(!w.observe(ClipKind::Text, b""));
}

fn clip(kind: ClipKind, n: usize, mime: Option<&str>) -> ClipData {
    ClipData { kind, bytes: vec![7u8; n], mime: mime.map(|m| m.to_string()) }
}

#[test]
fn small_captures_are_held_inline() {
    match plan_capture(clip(ClipKind::Image, 200_000, Some("image/png")), 5) {
        Capture::Inline(it) => {
            assert_eq!(it.kind, ItemKind::Image);
            assert_eq!(it.data.len(), 200_000);
            assert_eq!(it.mime.as_deref(), Some("image/png"));
            assert_eq!(it.file_path, None);
            assert!(!it.pinned);
        }
        _ => panic!("inline expected"),
    }
    assert!(matches!(plan_capture(clip(ClipKind::Html, 100_000, None), 5), Capture::Inline(_)));
    match plan_capture(clip(ClipKind::Text, 5_000_000, None), 5) {
        Capture::Inline(it) => assert_eq!(it.mime.as_deref(), Some("text/plain")),
        _ => panic!("text is always inline"),
    }
}

#[test]
fn large_captures_go_to_a_cache_file() {
    let plan = plan_capture(clip(ClipKind::Image, 200_001, Some("image/jpeg")), 1700000000123);
    match &plan {
        Capture::External { dir, file_name, bytes, mime, kind } => {
            assert_eq!(dir, "images");
            assert_eq!(file_name, "img-1700000000123.jpg");
            assert_eq!(bytes.len(), 200_001);
            assert_eq!(mime, "image/jpeg");
            assert_eq!(*kind, ItemKind::Image);
        }
        _ => panic!("external expected"),
    }
    let it = plan.stored_at("/c/images/img-1700000000123.jpg".to_string());
    assert!(it.data.is_empty());
    assert_eq!(it.file_path.as_deref(), Some("/c/images/img-1700000000123.jpg"));
    assert_eq!(it.mime.as_deref(), Some("image/jpeg"));
    let plan = plan_capture(clip(ClipKind::Html, 100_001, Some("text/html")), 42);
    match &plan {
        Capture::External { dir, file_name, .. } => {
            assert_eq!(dir, "html");
            assert_eq!(file_name, "html-42.html");
        }
        _ => panic!("external expected"),
    }
    let it = plan.kept_inline();
    assert_eq!(it.data.len(), 100_001);
    assert_eq!(it.file_path, None);
    assert_eq!(it.kind, ItemKind::Html);
}

#[test]
fn cache_file_extension_follows_the_content_type() {
    for (mime, ext) in [("image/png", "png"), ("image/jpg", "jpg"), ("image/webp", "webp"), ("image/gif", "bin")] {
        match plan_capture(clip(ClipKind::Image, 300_000, Some(mime)), 1) {
            Capture::External { file_name, .. } => assert_eq!(file_name, format!("img-1.{}", ext)),
            _ => panic!("external expected"),
        }
    }
}

fn file(size: u64, modified_ns: u128) -> CacheFile {
    CacheFile { size, modified_ns }
}

#[test]
fn cleanup_removes_oldest_first_until_within_budget() {
    let files = [file(40, 300), file(10, 100), file(30, 200), file(20, 400)];
    assert_eq!(plan_cleanup(&files, 100), Vec::<usize>::new());
    assert_eq!(plan_cleanup(&files, 99), vec![1]);
    assert_eq!(plan_cleanup(&files, 60), vec![1, 2]);
    assert_eq!(plan_cleanup(&files, 59), vec![1, 2, 0]);
    assert_eq!(plan_cleanup(&files, 0), vec![1, 2, 0, 3]);
    assert_eq!(plan_cleanup(&[], 0), Vec::<usize>::new());
}

#[test]
fn cleanup_keeps_listing_order_among_equal_times() {
    let files = [file(5, 7), file(5, 7), file(5, 3), file(5, 7)];
    assert_eq!(plan_cleanup(&files, 0), vec![2, 0, 1, 3]);
    let huge = [file(u64::MAX, 2), file(u64::MAX, 1), file(1, 3)];
    assert_eq!(plan_cleanup(&huge, u64::MAX), vec![1, 0]);
}

#[test]
fn config_defaults_and_settings() {
    let d = DaemonConfig::default();
    assert!(d.watch_text && d.watch_html && d.watch_image);
    assert_eq!((d.max_items, d.max_text_bytes, d.max_image_bytes, d.ttl_secs), (200, 100_000, 2_000_000, 0));
    assert_eq!(d.cache_images_max_bytes, 100 * 1024 * 1024);
    assert_eq!(d.cache_html_max_bytes, 50 * 1024 * 1024);
    let text = "# comment\n\nwatch.text = off\nWatch.Html=\"yes\"\n watch.image = 0 \nhistory.max_items = 500\nhistory.ttl_secs=\"3600\"\ncache.html.max_bytes = 2000000\r\nunknown.key = 1\nhistory.max_text_bytes = lots\n";
    let c = parse_config(text);
    assert!(!c.watch_text);
    assert!(c.watch_html);
    assert!(!c.watch_image);
    assert_eq!(c.max_items, 500);
    assert_eq!(c.ttl_secs, 3600);
    assert_eq!(c.cache_html_max_bytes, 2_000_000);
    assert_eq!(c.max_text_bytes, 100_000);
    assert_eq!(c.cache_images_max_bytes, d.cache_images_max_bytes);
}

#[test]
fn config_numbers_are_held_within_bounds() {
    let d = DaemonConfig::default();
    assert_eq!(apply_config_line(d, "history.max_items=1").max_items, 10);
    assert_eq!(apply_config_line(d, "history.max_items=99999").max_items, 10_000);
    assert_eq!(apply_config_line(d, "history.max_text_bytes=1").max_text_bytes, 1024);
    assert_eq!(apply_config_line(d, "history.max_text_bytes=99999999").max_text_bytes, 10_000_000);
    assert_eq!(apply_config_line(d, "history.max_image_bytes=1").max_image_bytes, 10_000);
    assert_eq!(apply_config_line(d, "history.max_image_bytes=999999999").max_image_bytes, 200_000_000);
    assert_eq!(apply_config_line(d, "cache.images.max_bytes=1").cache_images_max_bytes, 1_000_000);
    assert_eq!(apply_config_line(d, "cache.images.max_bytes=99999999999").cache_images_max_bytes, 10_000_000_000);
    assert_eq!(apply_config_line(d, "history.ttl_secs=-1").ttl_secs, 0);
    assert!(!apply_config_line(d, "watch.text").watch_text);
    assert!(apply_config_line(d, "watch.text=\"\"true\"\"").watch_text);
    assert!(!apply_config_line(d, "watch.text=TRUE").watch_text);
    assert_eq!(apply_config_line(d, "\u{3000}history.ttl_secs\u{00a0}=\u{2003}\"7\" \r").ttl_secs, 7);
    assert_eq!(apply_config_line(d, "  # history.ttl_secs = 7").ttl_secs, 0);
}
