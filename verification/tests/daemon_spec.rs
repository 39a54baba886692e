use clipdash::daemon::{
    image_reply, parse_command, paste_reply, Command, DaemonConfig, Outcome, Reply, Source, State,
};
use clipdash::store::FileStore;
use clipdash::{Item, ItemKind};

fn line(o: Outcome) -> String {
    match o.reply {
        Reply::Line(s) => s,
        _ => panic!("expected a plain reply"),
    }
}

#[test]
fn add_list_get_flow() {
    let mut s = State::new_default();
    let r = line(s.handle_command("ADD_TEXT hello"));
    assert!(r.starts_with("OK "));
    let list = line(s.handle_command("LIST 10"));
    assert!(list.starts_with("OK 1\n"));
    let id: u64 = list.lines().nth(1).unwrap().split('\t').next().unwrap().parse().unwrap();
    let got = line(s.handle_command(&format!("GET {}", id)));
    assert_eq!(got, "TEXT\nhello");
}

#[test]
fn scenario_add_list_get_delete() {
    let mut s = State::new_default();
    assert_eq!(line(s.handle_command("ADD_TEXT hello")), "OK 1");
    let list = line(s.handle_command("LIST 10"));
    assert_eq!(list, "OK 1\n1\tText\t0\thello\ttext/plain\n");
    assert_eq!(line(s.handle_command("GET 1")), "TEXT\nhello");
    assert_eq!(line(s.handle_command("DELETE 1")), "OK");
    assert_eq!(line(s.handle_command("GET 1")), "ERR not found");
}

#[test]
fn scenario_pin_of_missing_id_is_ok() {
    let mut s = State::new_default();
    assert_eq!(line(s.handle_command("PIN 1 1")), "OK");
    assert_eq!(s.history.len(), 0);
}

#[test]
fn verbs_are_read_without_regard_to_case_and_trailing_space() {
    let mut s = State::new_default();
    assert_eq!(line(s.handle_command("add_text hi \n")), "OK 1");
    assert_eq!(line(s.handle_command("Get 1\r\n")), "TEXT\nhi");
    assert_eq!(line(s.handle_command("clear")), "OK");
    assert_eq!(line(s.handle_command("list")), "OK 0\n");
}

#[test]
fn trailing_white_space_of_any_script_is_dropped() {
    let mut s = State::new_default();
    assert_eq!(line(s.handle_command("ADD_TEXT hi\u{2003}\u{00a0}\t\r\n")), "OK 1");
    assert_eq!(line(s.handle_command("GET 1\u{3000}")), "TEXT\nhi");
    assert_eq!(line(s.handle_command("GET 1\u{200b}")), "ERR not found");
    assert_eq!(line(s.handle_command(" GET 1")), "ERR unknown");
    assert_eq!(line(s.handle_command("   ")), "ERR unknown");
}

#[test]
fn unknown_and_invalid_commands() {
    let mut s = State::new_default();
    assert_eq!(line(s.handle_command("")), "ERR unknown");
    assert_eq!(line(s.handle_command("FROB 1")), "ERR unknown");
    assert_eq!(line(s.handle_command("PIN")), "ERR invalid args");
    assert_eq!(line(s.handle_command("PIN 1")), "ERR invalid args");
    assert_eq!(line(s.handle_command("PIN x 1")), "ERR invalid args");
    assert_eq!(line(s.handle_command("PIN 1 256")), "ERR invalid args");
    assert_eq!(line(s.handle_command("PIN 1 1 1")), "ERR invalid args");
    assert_eq!(line(s.handle_command("DELETE")), "ERR invalid args");
    assert_eq!(line(s.handle_command("DELETE x")), "ERR invalid args");
    assert_eq!(line(s.handle_command("DELETE 3")), "ERR not found");
    assert_eq!(line(s.handle_command("GET")), "ERR not found");
    assert_eq!(line(s.handle_command("GET x")), "ERR not found");
    assert_eq!(line(s.handle_command("PASTE 3")), "ERR not found");
}

#[test]
fn add_takes_all_that_follows_the_verb() {
    let mut s = State::new_default();
    assert_eq!(line(s.handle_command("ADD_TEXT hello world")), "OK 1");
    assert_eq!(line(s.handle_command("GET 1")), "TEXT\nhello world");
    assert_eq!(line(s.handle_command("ADD_TEXT one  two three \n")), "OK 2");
    assert_eq!(line(s.handle_command("GET 2")), "TEXT\none  two three");
    assert_eq!(line(s.handle_command("ADD_TEXT")), "OK 3");
    assert_eq!(line(s.handle_command("GET 3")), "TEXT\n");
    assert_eq!(line(s.handle_command("ADD_HTML <b class=x>bold text</b>")), "OK 4");
    assert_eq!(line(s.handle_command("GET 4")), "HTML\n<b class=x>bold text</b>");
    assert_eq!(line(s.handle_command("ADD_TEXT hello world")), "OK 1");
    assert_eq!(line(s.handle_command("ADD_TEXT hello")), "OK 5");
    assert_eq!(line(s.handle_command("LIST 1")), "OK 1\n5\tText\t0\thello\ttext/plain\n");
}

#[test]
fn add_text_over_the_limit_is_refused() {
    let cfg = DaemonConfig { max_text_bytes: 4, ..Default::default() };
    let mut s = State::with_file_persist("/tmp/unused", &cfg, None);
    let o = s.handle_command("ADD_TEXT toolong");
    assert!(o.save.is_none());
    assert_eq!(line(o), "ERR text too large");
    assert_eq!(s.history.len(), 0);
    assert_eq!(line(s.handle_command("ADD_HTML toolong")), "OK 1");
}

#[test]
fn list_is_most_recent_first_with_limit_and_query() {
    let mut s = State::new_default();
    for w in ["Apple", "banana", "APRICOT", "cherry"] {
        line(s.handle_command(&format!("ADD_TEXT {}", w)));
    }
    line(s.handle_command("PIN 2 1"));
    let all = line(s.handle_command("LIST 10"));
    assert_eq!(
        all,
        "OK 4\n4\tText\t0\tcherry\ttext/plain\n3\tText\t0\tAPRICOT\ttext/plain\n2\tText\t1\tbanana\ttext/plain\n1\tText\t0\tApple\ttext/plain\n"
    );
    let two = line(s.handle_command("LIST 2"));
    assert!(two.starts_with("OK 2\n4\t"));
    assert_eq!(two.lines().count(), 3);
    let ap = line(s.handle_command("LIST 10 AP"));
    assert_eq!(ap, "OK 2\n3\tText\t0\tAPRICOT\ttext/plain\n1\tText\t0\tApple\ttext/plain\n");
    let one = line(s.handle_command("LIST 1 ap"));
    assert_eq!(one, "OK 1\n3\tText\t0\tAPRICOT\ttext/plain\n");
    assert_eq!(line(s.handle_command("LIST 10 zzz")), "OK 0\n");
    assert_eq!(line(s.handle_command("LIST 0")), "OK 0\n");
    assert_eq!(line(s.handle_command("LIST 0 ap")), "OK 0\n");
    assert!(line(s.handle_command("LIST 4")).starts_with("OK 4\n"));
    assert!(line(s.handle_command("LIST 3")).starts_with("OK 3\n4\t"));
    let default_limit = line(s.handle_command("LIST many"));
    assert!(default_limit.starts_with("OK 4\n"));
}

fn image(id: u64, data: &[u8], mime: Option<&str>, path: Option<&str>) -> Item {
    Item {
        id,
        kind: ItemKind::Image,
        data: data.to_vec(),
        pinned: false,
        ts_ms: 0,
        mime: mime.map(|m| m.to_string()),
        file_path: path.map(|p| p.to_string()),
    }
}

#[test]
fn list_matches_other_kinds_by_title() {
    let mut s = State::new_default();
    s.history.rebuild_from(vec![image(1, b"png!", Some("image/png"), None)]);
    assert_eq!(line(s.handle_command("LIST 5 IMAGE")), "OK 1\n1\tImage\t0\t[image]\timage/png\n");
    assert_eq!(line(s.handle_command("LIST 5 png")), "OK 0\n");
}

#[test]
fn get_of_an_image_asks_for_its_bytes() {
    let mut s = State::new_default();
    s.history.rebuild_from(vec![
        image(1, b"abc", Some("image/jpeg"), Some("/ignored")),
        image(2, b"", None, Some("/cache/img-2.png")),
        image(3, b"", None, None),
    ]);
    match s.handle_command("GET 1").reply {
        Reply::Image { mime, source: Source::Inline(b) } => {
            assert_eq!(mime, "image/jpeg");
            assert_eq!(b, b"abc".to_vec());
        }
        _ => panic!("inline image expected"),
    }
    match s.handle_command("GET 2").reply {
        Reply::Image { mime, source: Source::File(p) } => {
            assert_eq!(mime, "image/png");
            assert_eq!(p, "/cache/img-2.png");
        }
        _ => panic!("image in a file expected"),
    }
    match s.handle_command("GET 3").reply {
        Reply::Image { source: Source::Inline(b), .. } => assert!(b.is_empty()),
        _ => panic!("empty image expected"),
    }
}

#[test]
fn image_reply_encodes_in_base64() {
    assert_eq!(image_reply("image/png", b"abc").unwrap(), "IMAGE\nimage/png\nYWJj");
    assert_eq!(image_reply("image/png", b"ab").unwrap(), "IMAGE\nimage/png\nYWI=");
    assert_eq!(image_reply("image/png", b"").unwrap(), "IMAGE\nimage/png\n");
    assert_eq!(image_reply("x", &[0xfb, 0xff]).unwrap(), "IMAGE\nx\n+/8=");
}

#[test]
fn paste_asks_for_the_clipboard_to_be_written() {
    let mut s = State::new_default();
    line(s.handle_command("ADD_TEXT hey"));
    line(s.handle_command("ADD_HTML <i>x</i>"));
    match s.handle_command("PASTE 1").reply {
        Reply::Paste { kind, mime, source: Source::Inline(b) } => {
            assert_eq!(kind, ItemKind::Text);
            assert_eq!(mime, "text/plain;charset=utf-8");
            assert_eq!(b, b"hey".to_vec());
        }
        _ => panic!("text paste expected"),
    }
    match s.handle_command("PASTE 2").reply {
        Reply::Paste { kind, mime, source: Source::Inline(b) } => {
            assert_eq!(kind, ItemKind::Html);
            assert_eq!(mime, "text/html");
            assert_eq!(b, b"<i>x</i>".to_vec());
        }
        _ => panic!("html paste expected"),
    }
    s.history.rebuild_from(vec![image(5, b"", Some("image/webp"), Some("/c/i.webp"))]);
    match s.handle_command("PASTE 5").reply {
        Reply::Paste { kind, mime, source: Source::File(p) } => {
            assert_eq!(kind, ItemKind::Image);
            assert_eq!(mime, "image/webp");
            assert_eq!(p, "/c/i.webp");
        }
        _ => panic!("image paste expected"),
    }
}

#[test]
fn paste_reply_reports_the_outcome() {
    assert_eq!(paste_reply(Ok(())), "OK");
    assert_eq!(paste_reply(Err("no clipboard tool".to_string())), "ERR no clipboard tool");
}

#[test]
fn changes_ask_for_a_save_when_a_store_is_set() {
    let mut s = State::with_file_persist("/tmp/h.v1", &DaemonConfig::default(), None);
    assert_eq!(s.persist.as_ref().map(|p| p.path().to_string()), Some("/tmp/h.v1".to_string()));
    let o = s.handle_command("ADD_TEXT a");
    let saved = o.save.clone().unwrap();
    assert_eq!(Some(saved.clone()), s.persist_if_needed());
    assert!(saved.starts_with("CLIPDASHv4\n1|T|0|"));
    assert!(saved.ends_with("|text/plain||1|61\n"));
    assert!(s.handle_command("LIST").save.is_none());
    assert!(s.handle_command("GET 1").save.is_none());
    assert!(s.handle_command("PIN 9 1").save.is_some());
    assert!(s.handle_command("DELETE 9").save.is_none());
    assert_eq!(s.handle_command("DELETE 1").save.as_deref(), Some("CLIPDASHv4\n"));
    assert!(s.handle_command("CLEAR").save.is_some());
    let mut plain = State::new_default();
    assert!(plain.handle_command("ADD_TEXT a").save.is_none());
    assert!(plain.persist_if_needed().is_none());
}

#[test]
fn state_loads_what_was_saved() {
    let mut s = State::with_file_persist("/tmp/h.v1", &DaemonConfig::default(), None);
    line(s.handle_command("ADD_TEXT a"));
    line(s.handle_command("ADD_TEXT b"));
    let saved = s.handle_command("PIN 1 1").save.unwrap();
    let mut t = State::with_file_persist("/tmp/h.v1", &DaemonConfig::default(), Some(&saved));
    assert_eq!(t.history.len(), 2);
    assert!(t.history.all()[0].pinned);
    assert_eq!(line(t.handle_command("ADD_TEXT c")), "OK 3");
    assert_eq!(FileStore::decode_log(&saved).len(), 2);
}

#[test]
fn commands_go_on_when_identifiers_have_run_out() {
    let mut s = State::new_default();
    let mut top = image(u64::MAX, b"x", None, None);
    top.kind = ItemKind::Text;
    s.history.rebuild_from(vec![top]);
    assert!(!s.history.has_spare_id());
    assert_eq!(s.try_handle_command("LIST 5").map(line), Some(format!("OK 1\n{}\tText\t0\tx\ttext/plain\n", u64::MAX)));
    assert_eq!(s.try_handle_command("ADD_TEXT x").map(line), Some(format!("OK {}", u64::MAX)));
    assert!(s.try_handle_command("ADD_TEXT y").is_none());
    assert_eq!(s.history.len(), 1);
    assert!(s.history.can_insert(ItemKind::Text, &b"x".to_vec()));
    assert!(!s.history.can_insert(ItemKind::Text, &b"y".to_vec()));
    assert!(s.history.can_insert(ItemKind::Image, &vec![0u8; 3_000_000]));
    assert_eq!(s.try_handle_command("PIN 1 1").map(line), Some("OK".to_string()));
    assert_eq!(s.try_handle_command("CLEAR").map(line), Some("OK".to_string()));
}

#[test]
fn parse_command_reads_arguments() {
    assert!(matches!(parse_command("CLEAR"), Command::Clear));
    assert!(matches!(parse_command("get 12"), Command::Get(Some(12))));
    assert!(matches!(parse_command("GET +12"), Command::Get(Some(12))));
    assert!(matches!(parse_command("GET -1"), Command::Get(None)));
    assert!(matches!(parse_command("PIN 3 0"), Command::Pin(Some((3, false)))));
    assert!(matches!(parse_command("PIN 3 7"), Command::Pin(Some((3, true)))));
    assert!(matches!(parse_command("GET  1"), Command::Get(None)));
    match parse_command("LIST 5 Foo Bar") {
        Command::List { limit, query } => {
            assert_eq!(limit, 5);
            assert_eq!(query, "foo bar");
        }
        _ => panic!("LIST expected"),
    }
    match parse_command("ADD_TEXT héllo wörld  ") {
        Command::AddText(d) => assert_eq!(d, "héllo wörld".as_bytes().to_vec()),
        _ => panic!("ADD_TEXT expected"),
    }
}
