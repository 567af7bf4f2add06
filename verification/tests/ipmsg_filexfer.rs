use bigpaw::ipmsg::dirstream::{entry_step, receive_dir_stream, DirEffect, DirEnd, EntryStep};
use bigpaw::ipmsg::filexfer::{
    build_file_offer_extra, build_getfiledata_extra, contains_bidi_control, escape_colon,
    new_offered_files, parse_file_attach_extra, parse_getfiledata_extra, request_packet,
    safe_basename, sanitize_save_path, serve_getfiledata_request, split_escaped_fields, PathPart,
    FILE_DIR, FILE_REGULAR, FILE_RETPARENT,
};
use bigpaw::ipmsg::proto;

#[test]
fn parse_file_attach_extra_single_file_chinese_name() {
    let extra = build_file_offer_extra("你好", 0, "图片.png", 1000, 0, FILE_REGULAR);
    let (body, files) = parse_file_attach_extra(&extra);
    assert_eq!(body, "你好");
    assert_eq!(files.len(), 1);
    assert_eq!(files[0].file_id, 0);
    assert_eq!(files[0].name, "图片.png");
    assert_eq!(files[0].size, 1000);
    assert!(!files[0].is_dir);
}

#[test]
fn parse_file_attach_extra_multiple_files() {
    let e1 = format!(
        "{:x}:{}:{:x}:{:x}:{:x}:",
        0u32, "a.txt", 10u64, 0u64, FILE_REGULAR
    );
    let e2 = format!(
        "{:x}:{}:{:x}:{:x}:{:x}:",
        1u32, "b.zip", 20u64, 0u64, FILE_REGULAR
    );
    let extra = format!("hi\u{0}{e1}\u{7}{e2}");
    let (body, files) = parse_file_attach_extra(&extra);
    assert_eq!(body, "hi");
    assert_eq!(files.len(), 2);
    assert_eq!(files[0].name, "a.txt");
    assert_eq!(files[0].size, 10); // 10u64 -> hex "a" -> 十六进制解析回 10
    assert_eq!(files[1].name, "b.zip");
    assert_eq!(files[1].size, 20); // 20u64 -> hex "14" -> 十六进制解析回 20
}

#[test]
fn parse_file_attach_extra_dir_entry_marks_is_dir() {
    let extra = build_file_offer_extra("", 2, "照片文件夹", 0, 0, FILE_DIR);
    let (_, files) = parse_file_attach_extra(&extra);
    assert_eq!(files.len(), 1);
    assert!(files[0].is_dir);
}

#[test]
fn parse_file_attach_extra_malformed_hex_entry_is_skipped_not_panic() {
    let extra = "msg\u{0}zzz:name.txt:notafhex:0:1:";
    let (body, files) = parse_file_attach_extra(extra);
    assert_eq!(body, "msg");
    assert!(files.is_empty());
}

#[test]
fn parse_file_attach_extra_no_nul_returns_body_only() {
    let (body, files) = parse_file_attach_extra("just a normal text message");
    assert_eq!(body, "just a normal text message");
    assert!(files.is_empty());
}

#[test]
fn parse_file_attach_extra_second_bad_entry_does_not_drop_first_good_one() {
    let good = format!(
        "{:x}:{}:{:x}:{:x}:{:x}:",
        0u32, "ok.txt", 5u64, 0u64, FILE_REGULAR
    );
    let extra = format!("m\u{0}{good}\u{7}bad:entry");
    let (_, files) = parse_file_attach_extra(&extra);
    assert_eq!(files.len(), 1);
    assert_eq!(files[0].name, "ok.txt");
}

#[test]
fn parse_file_attach_extra_drops_traversal_entry_name() {
    let evil = format!(
        "{:x}:{}:{:x}:{:x}:{:x}:",
        0u32, "../../../etc/passwd", 10u64, 0u64, FILE_REGULAR
    );
    let good = format!(
        "{:x}:{}:{:x}:{:x}:{:x}:",
        1u32, "你好.txt", 5u64, 0u64, FILE_REGULAR
    );
    let extra = format!("m\u{0}{evil}\u{7}{good}");
    let (_, files) = parse_file_attach_extra(&extra);
    assert_eq!(files.len(), 1);
    assert_eq!(files[0].name, "你好.txt");
    assert!(files.iter().all(|f| !f.name.contains('/')));
}

#[test]
fn parse_file_attach_extra_drops_backslash_traversal_entry_name() {
    let evil = format!(
        "{:x}:{}:{:x}:{:x}:{:x}:",
        0u32, "..\\..\\evil.txt", 4u64, 0u64, FILE_REGULAR
    );
    let extra = format!("m\u{0}{evil}");
    let (_, files) = parse_file_attach_extra(&extra);
    assert!(files.is_empty());
}

#[test]
fn colon_escaping_roundtrips_at_the_field_splitting_level() {
    let escaped = escape_colon("10:30 会议记录");
    assert_eq!(escaped, "10::30 会议记录");
    let fields = split_escaped_fields(&format!("{escaped}:next"));
    assert_eq!(
        fields,
        vec!["10:30 会议记录".to_string(), "next".to_string()]
    );
}

#[test]
fn parse_file_attach_extra_drops_colon_in_filename_entry() {
    let extra = build_file_offer_extra("", 0, "10:30 会议记录.txt", 5, 0, FILE_REGULAR);
    assert!(extra.contains("10::30"));
    let (_, files) = parse_file_attach_extra(&extra);
    assert!(files.is_empty());
}

#[test]
fn getfiledata_extra_roundtrips_hex() {
    let extra = build_getfiledata_extra(0xABCD, 0x7, 0x1000);
    assert_eq!(extra, "abcd:7:1000");
    assert_eq!(parse_getfiledata_extra(&extra), Some((0xABCD, 0x7, 0x1000)));
}

#[test]
fn getfiledata_extra_malformed_is_none() {
    assert_eq!(parse_getfiledata_extra("only:two"), None);
    assert_eq!(parse_getfiledata_extra("zz:1:2"), None);
}

#[test]
fn safe_basename_rejects_traversal_and_hazards() {
    assert_eq!(safe_basename("report.pdf"), Some("report.pdf".to_string()));
    assert_eq!(safe_basename("图片.png"), Some("图片.png".to_string()));
    assert_eq!(safe_basename("../etc/passwd"), None);
    assert_eq!(safe_basename("a/b.txt"), None);
    assert_eq!(safe_basename("a\\b.txt"), None);
    assert_eq!(safe_basename("/abs"), None);
    assert_eq!(safe_basename(".."), None);
    assert_eq!(safe_basename(""), None);
    assert_eq!(safe_basename("CON"), None);
    assert_eq!(safe_basename("con.txt"), None);
    assert_eq!(safe_basename("a."), None);
    assert_eq!(safe_basename("x:hidden"), None);
    assert_eq!(safe_basename("a\u{202E}txt.exe"), None);
}

#[test]
fn getfiledata_request_response_roundtrips_over_ephemeral_tcp() {
    let mut offered = new_offered_files();
    offered.register(42, 7, "source.bin".to_string());
    let request = request_packet("1", 1, "bob", "HOST-B", 42, 7);
    assert_eq!(
        serve_getfiledata_request(&proto::encode(&request), &offered),
        Some(("source.bin".to_string(), 0))
    );
}

#[test]
fn serve_getfiledata_accepts_feiq_style_nul_terminated_request() {
    let mut offered = new_offered_files();
    offered.register(0x2a, 0, "feiq.bin".to_string());
    let raw = proto::gbk_encode("1_lbt6_8#998#abc:7:feiq:FEIQ-HOST:96:2a:0:0\u{0}");
    assert_eq!(
        serve_getfiledata_request(&raw, &offered),
        Some(("feiq.bin".to_string(), 0))
    );
}

#[test]
fn getfiledata_request_for_unregistered_file_id_is_refused() {
    let offered = new_offered_files();
    let request = request_packet("1", 1, "bob", "HOST-B", 999, 999);
    assert_eq!(serve_getfiledata_request(&proto::encode(&request), &offered), None);
}

#[test]
fn other_requests_are_refused() {
    let mut offered = new_offered_files();
    offered.register(42, 7, "source.bin".to_string());
    assert_eq!(serve_getfiledata_request(b"garbage", &offered), None);
    let mut request = request_packet("1", 1, "bob", "HOST-B", 42, 7);
    request.command = 0x62;
    assert_eq!(serve_getfiledata_request(&proto::encode(&request), &offered), None);
    assert_eq!(offered.lookup(42, 7), Some("source.bin".to_string()));
    assert_eq!(offered.lookup(42, 8), None);
}

fn name(s: &str) -> PathPart {
    PathPart::Name(Some(s.to_string()))
}

#[test]
fn request_file_bytes_sanitizes_save_path_basename() {
    let parts = [PathPart::Root, name("tmp"), PathPart::Parent];
    assert_eq!(sanitize_save_path(&parts), None);
}

#[test]
fn request_file_bytes_rejects_traversal_save_path_and_writes_nothing() {
    let parts = [
        PathPart::Root,
        name("tmp"),
        PathPart::Parent,
        PathPart::Parent,
        name("evil-traversal-test.bin"),
    ];
    assert_eq!(sanitize_save_path(&parts), None);
}

#[test]
fn a_plain_save_path_is_kept() {
    let deep = sanitize_save_path(&[PathPart::Root, name("tmp"), name("a.txt")]).unwrap();
    assert_eq!((deep.name.as_str(), deep.in_current_dir), ("a.txt", false));
    let bare = sanitize_save_path(&[name("a.txt")]).unwrap();
    assert_eq!((bare.name.as_str(), bare.in_current_dir), ("a.txt", true));
    assert_eq!(sanitize_save_path(&[]), None);
    assert_eq!(sanitize_save_path(&[PathPart::Root]), None);
    assert_eq!(sanitize_save_path(&[name("CON")]), None);
    assert_eq!(sanitize_save_path(&[PathPart::Name(None)]), None);
}

#[test]
fn bidi_controls_are_found() {
    assert!(contains_bidi_control("a\u{202E}b"));
    assert!(contains_bidi_control("\u{2066}"));
    assert!(!contains_bidi_control("a\u{202F}b"));
}

/// An entry of a directory stream. The header size counts its own digits and
/// the colon behind them.
fn dir_entry_bytes(name: &str, size_or_zero: u64, fileattr: u32, content: &[u8]) -> Vec<u8> {
    let mut header_tail = proto::gbk_encode(&escape_colon(name));
    header_tail.extend_from_slice(format!(":{size_or_zero:x}:{fileattr:x}:").as_bytes());
    let mut hs_digits = 1usize;
    loop {
        let total = hs_digits + 1 + header_tail.len();
        let hex_len = format!("{total:x}").len();
        if hex_len == hs_digits {
            let mut out = format!("{total:x}:").into_bytes();
            out.extend_from_slice(&header_tail);
            out.extend_from_slice(content);
            return out;
        }
        hs_digits = hex_len;
    }
}

fn file(path: &[&str], content: &[u8]) -> DirEffect {
    DirEffect::WriteFile {
        path: path.iter().map(|p| p.to_string()).collect(),
        content: content.to_vec(),
    }
}

#[test]
fn receive_dir_stream_flat_files() {
    let mut wire = Vec::new();
    wire.extend(dir_entry_bytes("a.txt", 5, FILE_REGULAR, b"hello"));
    wire.extend(dir_entry_bytes("图片.png", 3, FILE_REGULAR, b"\x01\x02\x03"));
    let (effects, end) = receive_dir_stream(&wire);
    assert_eq!(end, DirEnd::Done);
    assert_eq!(
        effects,
        vec![file(&["a.txt"], b"hello"), file(&["图片.png"], b"\x01\x02\x03")]
    );
}

#[test]
fn receive_dir_stream_nested_directory_with_retparent() {
    let mut wire = Vec::new();
    wire.extend(dir_entry_bytes("sub", 0, FILE_DIR, b""));
    wire.extend(dir_entry_bytes("inner.txt", 5, FILE_REGULAR, b"world"));
    wire.extend(dir_entry_bytes(".", 0, FILE_RETPARENT, b""));
    wire.extend(dir_entry_bytes("top.txt", 3, FILE_REGULAR, b"top"));
    let (effects, end) = receive_dir_stream(&wire);
    assert_eq!(end, DirEnd::Done);
    assert_eq!(
        effects,
        vec![
            DirEffect::MakeDir(vec!["sub".to_string()]),
            file(&["sub", "inner.txt"], b"world"),
            file(&["top.txt"], b"top"),
        ]
    );
}

#[test]
fn receive_dir_stream_rejects_traversal_but_stays_in_sync() {
    let mut wire = Vec::new();
    wire.extend(dir_entry_bytes("../evil.txt", 4, FILE_REGULAR, b"evil"));
    wire.extend(dir_entry_bytes("safe.txt", 4, FILE_REGULAR, b"safe"));
    let (effects, end) = receive_dir_stream(&wire);
    assert_eq!(end, DirEnd::Done);
    assert_eq!(effects, vec![file(&["safe.txt"], b"safe")]);
}

#[test]
fn receive_dir_stream_over_tcp_stream() {
    let wire = dir_entry_bytes("a.txt", 5, FILE_REGULAR, b"hello");
    let (effects, end) = receive_dir_stream(&wire);
    assert_eq!(end, DirEnd::Done);
    assert_eq!(effects, vec![file(&["a.txt"], b"hello")]);
}

#[test]
fn a_broken_directory_stream_ends_with_its_fault() {
    assert_eq!(receive_dir_stream(b"").1, DirEnd::Done);
    assert_eq!(receive_dir_stream(b"1f").1, DirEnd::TruncatedSize);
    assert_eq!(receive_dir_stream(b"zz:").1, DirEnd::SizeNotHex);
    assert_eq!(receive_dir_stream(b"00000000000000001:").1, DirEnd::SizeTooLong);
    assert_eq!(receive_dir_stream(b"20:a.txt:").1, DirEnd::TruncatedHeader);
    let cut = dir_entry_bytes("a.txt", 5, FILE_REGULAR, b"hel");
    assert_eq!(receive_dir_stream(&cut).1, DirEnd::TruncatedContent);
}

#[test]
fn an_entry_is_read_byte_by_byte() {
    assert_eq!(entry_step(b"", false), EntryStep::More);
    assert_eq!(entry_step(b"", true), EntryStep::End(DirEnd::Done));
    assert_eq!(entry_step(b"00", false), EntryStep::More);
    assert_eq!(entry_step(b"00", true), EntryStep::End(DirEnd::TruncatedSize));
    assert_eq!(entry_step(b"0010:", false), EntryStep::Header { left: 11 });
    assert_eq!(entry_step(b"0005:", true), EntryStep::Header { left: 0 });
    // Shorter than its own length field.
    assert_eq!(entry_step(b"0004:", false), EntryStep::End(DirEnd::Done));
    assert_eq!(entry_step(b"xy:", false), EntryStep::End(DirEnd::SizeNotHex));
    assert_eq!(entry_step(&[b'0'; 17], false), EntryStep::End(DirEnd::SizeTooLong));
}
