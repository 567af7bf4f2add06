use bigpaw::addr::{IpAddr, Ipv4Addr};
use bigpaw::digest::blake3_of;
use bigpaw::json::JsonPart;
use bigpaw::moment::Instant;
use bigpaw::net_ifaces::{directed_broadcast, IfaceEntry, IfaceSnapshot};
use bigpaw::transport::control::{
    file_frame_from, parse_frame, read_frame, write_frame, Frame, T_FILE_ACCEPT, T_FILE_OFFER,
    T_FILE_REJECT, T_FILE_START, T_GROUP_TEXT,
};
use bigpaw::transport::filexfer::{
    check_digest, join_path, part_path, receive_into, safe_basename, Intake, Receiving, Want, XferError, CHUNK,
};
use bigpaw::transport::manager::{
    conn_is_dead, data_frame, fallback_port, hello_frame, new_text, receive_event, route_first,
    send_event, send_first, send_next, FirstRoute, KeptChange, ProbeRead, ProgressGate, ReadStep,
    ReplyStep, SendStep, TransportError, TransportEvent, TransportManager, PROGRESS_THROTTLE,
};
use bigpaw::transport::proto::{
    frame_bytes, frame_size, message_from, new_id, now_ms, parse_msg, read_msg, write_msg, FrameError, Msg,
    MAX_FRAME, T_HELLO, T_TEXT,
};

// ---------------------------------------------------------------------------
// Frames
// ---------------------------------------------------------------------------

#[test]
fn roundtrip_hello_and_text() {
    let msgs = vec![
        Msg::Hello { v: 1 },
        Msg::Text {
            id: new_id(),
            body: "你好 BigPaw🐾".to_string(),
            ts_ms: now_ms(),
        },
    ];
    let mut buf = Vec::new();
    for m in &msgs {
        buf.extend(write_msg(m).unwrap());
    }
    let mut at = 0;
    for m in &msgs {
        let (read, n) = read_msg(&buf[at..]).unwrap();
        assert_eq!(&read, m);
        at += n;
    }
    assert_eq!(at, buf.len());
}

#[test]
fn oversize_frame_is_rejected_without_allocation() {
    let mut buf = Vec::new();
    buf.extend_from_slice(&((MAX_FRAME as u32) + 1).to_be_bytes());
    buf.push(2);
    let err = read_msg(&buf).unwrap_err();
    assert!(err.is_invalid_data());
}

#[test]
fn unknown_type_is_invalid_data() {
    let mut buf = Vec::new();
    buf.extend_from_slice(&2u32.to_be_bytes());
    buf.push(99);
    buf.extend_from_slice(b"{}");
    let err = read_msg(&buf).unwrap_err();
    assert!(err.is_invalid_data());
}

#[test]
fn each_fault_of_a_frame_is_told() {
    assert_eq!(read_msg(b"\0\0"), Err(FrameError::Truncated));
    assert_eq!(read_msg(b"\0\0\0\0"), Err(FrameError::SizeOutOfRange));
    assert_eq!(read_msg(b"\0\0\0\x05\x02{}"), Err(FrameError::Truncated));
    assert!(!FrameError::Truncated.is_invalid_data());
    assert_eq!(read_msg(b"\0\0\0\x04\x02{a}"), Err(FrameError::BadPayload));
    assert_eq!(read_msg(b"\0\0\0\x03\x63{}"), Err(FrameError::UnknownType));
    let long = Msg::Text { id: "i".to_string(), body: "x".repeat(MAX_FRAME), ts_ms: 0 };
    assert_eq!(write_msg(&long), Err(FrameError::TooLarge));
}

#[test]
fn a_frame_is_size_kind_and_json() {
    assert_eq!(write_msg(&Msg::Hello { v: 1 }).unwrap(), b"\0\0\0\x08\x01{\"v\":1}".to_vec());
    assert_eq!(frame_bytes(7, b"ab").unwrap(), vec![0, 0, 0, 3, 7, b'a', b'b']);
    assert_eq!(frame_size(&[0, 16, 0, 0]), Ok(MAX_FRAME));
    assert_eq!(frame_size(&[0, 16, 0, 1]), Err(FrameError::SizeOutOfRange));
    assert_eq!(T_HELLO, 1);
    assert_eq!(
        parse_msg(T_TEXT, br#"{"ts_ms":7,"body":"a\nb","id":"x","more":[1]}"#),
        Ok(Msg::Text { id: "x".to_string(), body: "a\nb".to_string(), ts_ms: 7 })
    );
}

#[test]
fn identifiers_are_random_and_formed() {
    let a = new_id();
    assert_ne!(a, new_id());
    assert_eq!(a.len(), 36);
    assert_eq!(&a[14..15], "4");
    assert!(now_ms() > 1_600_000_000_000);
}

#[test]
fn a_message_is_made_of_its_members() {
    let from = |kind: u8, v: JsonPart, id: JsonPart| {
        message_from(kind, v, id, JsonPart::Text("hi".to_string()), JsonPart::Number(7))
    };
    let text = |id: &str| Msg::Text { id: id.to_string(), body: "hi".to_string(), ts_ms: 7 };
    assert_eq!(from(T_HELLO, JsonPart::Number(3), JsonPart::Missing), Ok(Msg::Hello { v: 3 }));
    assert_eq!(from(T_HELLO, JsonPart::Number(65_539), JsonPart::Missing), Ok(Msg::Hello { v: 3 }));
    assert_eq!(from(T_HELLO, JsonPart::Other, JsonPart::Missing), Ok(Msg::Hello { v: 0 }));
    assert_eq!(from(T_TEXT, JsonPart::Missing, JsonPart::Text("m".to_string())), Ok(text("m")));
    assert_eq!(from(T_TEXT, JsonPart::Missing, JsonPart::Number(1)), Ok(text("")));
    assert_eq!(from(T_TEXT, JsonPart::Bad, JsonPart::Bad), Err(FrameError::BadPayload));
    assert_eq!(from(99, JsonPart::Missing, JsonPart::Missing), Err(FrameError::UnknownType));
}

#[test]
fn a_file_frame_is_made_of_its_members() {
    let from = |kind: u8| {
        file_frame_from(
            kind,
            JsonPart::Text("x".to_string()),
            JsonPart::Number(5),
            JsonPart::Text("a.bin".to_string()),
            JsonPart::Number(9),
            JsonPart::Other,
        )
    };
    let xfer_id = "x".to_string();
    assert_eq!(
        from(T_FILE_OFFER),
        Some(Frame::FileOffer {
            xfer_id: xfer_id.clone(),
            name: "a.bin".to_string(),
            size: 9,
            blake3: String::new(),
        })
    );
    assert_eq!(
        from(T_FILE_ACCEPT),
        Some(Frame::FileAccept { xfer_id: xfer_id.clone(), offset: 5 })
    );
    assert_eq!(from(T_FILE_REJECT), Some(Frame::FileReject { xfer_id: xfer_id.clone() }));
    assert_eq!(from(T_FILE_START), Some(Frame::FileStart { xfer_id, offset: 5 }));
    assert_eq!(from(T_TEXT), None);
    assert_eq!(from(T_GROUP_TEXT), None);
}

#[test]
fn every_frame_is_read_back() {
    let id = "x-1".to_string();
    let frames = vec![
        hello_frame(),
        Frame::FileOffer {
            xfer_id: id.clone(),
            name: "图片 \"1\".png".to_string(),
            size: u64::MAX,
            blake3: "ab".to_string(),
        },
        Frame::FileAccept { xfer_id: id.clone(), offset: 5 },
        Frame::FileReject { xfer_id: id.clone() },
        data_frame("x-1", 9),
        Frame::Group { kind: T_GROUP_TEXT, payload: b"{\"a\":1}".to_vec() },
    ];
    for f in &frames {
        let bytes = write_frame(f).unwrap();
        let mut longer = bytes.clone();
        longer.extend_from_slice(b"rest");
        assert_eq!(read_frame(&longer), Ok((f.clone(), bytes.len())));
    }
    assert_eq!(parse_frame(T_FILE_OFFER, b"{oops"), Err(FrameError::BadPayload));
    assert_eq!(
        parse_frame(T_FILE_ACCEPT, b"{}"),
        Ok(Frame::FileAccept { xfer_id: "".to_string(), offset: 0 })
    );
    assert_eq!(parse_frame(200, b"{}"), Err(FrameError::UnknownType));
}

// ---------------------------------------------------------------------------
// Files
// ---------------------------------------------------------------------------

#[test]
fn safe_basename_rejects_traversal() {
    assert_eq!(safe_basename("report.pdf"), Some("report.pdf".to_string()));
    assert_eq!(safe_basename("图片.png"), Some("图片.png".to_string()));
    assert_eq!(safe_basename("../etc/passwd"), None);
    assert_eq!(safe_basename("a/b.txt"), None);
    assert_eq!(safe_basename("a\\b.txt"), None);
    assert_eq!(safe_basename("/abs"), None);
    assert_eq!(safe_basename(".."), None);
    assert_eq!(safe_basename(""), None);
}

fn intake(part: Option<&[u8]>) -> Intake {
    Intake { part: part.map(|b| b.to_vec()), taken: 0, progress: vec![] }
}

#[test]
fn receive_full_file_verifies_and_renames() {
    let data = b"hello bigpaw file transfer payload".to_vec();
    let hash = blake3_of(&data);
    let mut intake = intake(None);
    let size = data.len() as u64;
    let got = receive_into("/dl", '/', "greeting.txt", size, 0, &hash, &data, &mut intake).unwrap();
    assert_eq!(got.path, "/dl/greeting.txt");
    assert_eq!(got.contents, data);
    assert_eq!(intake.part, None);
    assert_eq!(intake.taken, data.len());
    assert_eq!(*intake.progress.last().unwrap(), data.len() as u64);
}

#[test]
fn resume_from_offset_completes_file() {
    let data = vec![7u8; 3_000_000];
    let hash = blake3_of(&data);
    let offset = 1_048_576usize;
    let mut intake = intake(Some(&data[..offset]));
    let got = receive_into(
        "/dl",
        '/',
        "big.bin",
        data.len() as u64,
        offset as u64,
        &hash,
        &data[offset..],
        &mut intake,
    )
    .unwrap();
    assert_eq!(got.contents, data);
    assert_eq!(intake.part, None);
    assert_eq!(intake.progress, vec![2 * CHUNK as u64, 3_000_000]);
}

#[test]
fn wrong_hash_is_error_and_keeps_part() {
    let data = b"payload".to_vec();
    let mut intake = intake(None);
    let size = data.len() as u64;
    let err = receive_into("/dl", '/', "x.bin", size, 0, &"0".repeat(64), &data, &mut intake);
    assert_eq!(intake, Intake { part: Some(data.clone()), taken: data.len(), progress: vec![7] });
    match err {
        Err(XferError::Checksum { expected, actual }) => {
            assert_eq!(expected, "0".repeat(64));
            assert_eq!(actual, blake3::hash(&data).to_hex().to_string());
        }
        other => panic!("{other:?}"),
    }
}

#[test]
fn a_bad_name_and_a_short_sender_are_told() {
    let mut kept = intake(Some(b"part"));
    let bad = receive_into("/dl", '/', "../x", 1, 0, "", b"a", &mut kept);
    assert_eq!(bad, Err(XferError::BadName));
    assert_eq!(kept, intake(Some(b"part")));
    let short = receive_into("/dl", '/', "x", 2, 0, "", b"a", &mut kept);
    assert!(matches!(short, Err(XferError::Io(_))));
    assert_eq!(kept, intake(Some(b"")));
    assert_eq!(XferError::Io("gone".to_string()).to_text(), "io: gone");
    assert_eq!(XferError::BadName.to_text(), "非法文件名(可能路径穿越)");
    let sum = XferError::Checksum { expected: "a".to_string(), actual: "b".to_string() };
    assert_eq!(sum.to_text(), "blake3 校验失败:期望 a, 实际 b");
}

#[test]
fn a_receive_that_was_cut_off_leaves_what_came_whole() {
    let data: Vec<u8> = (0..3 * CHUNK + 5).map(|i| (i % 251) as u8).collect();
    let size = data.len() as u64;
    let hash = blake3_of(&data);
    let mut left = intake(None);
    let sent = &data[..2 * CHUNK + 9];
    assert!(receive_into("/dl", '/', "x", size, 0, &hash, sent, &mut left).is_err());
    assert_eq!(left.part.as_deref(), Some(&data[..2 * CHUNK]));
    assert_eq!(left.taken, 2 * CHUNK);
    assert_eq!(left.progress, vec![CHUNK as u64, 2 * CHUNK as u64]);

    let mut again = intake(left.part.as_deref());
    let offset = 2 * CHUNK as u64;
    let rest = &data[2 * CHUNK..];
    let got = receive_into("/dl", '/', "x", size, offset, &hash, rest, &mut again).unwrap();
    assert_eq!(got.contents, data);

    // A part file that is shorter than the offset is left alone.
    let mut short = intake(Some(b"abc"));
    assert!(receive_into("/dl", '/', "x", size, 4, &hash, rest, &mut short).is_err());
    assert_eq!(short, intake(Some(b"abc")));
}

#[test]
fn paths_below_the_download_directory() {
    assert_eq!(join_path("/dl", '/', "a.txt"), "/dl/a.txt");
    assert_eq!(join_path("/dl/", '/', "a.txt"), "/dl/a.txt");
    assert_eq!(part_path("/dl", '/', "a.txt"), "/dl/a.txt.bigpaw-part");
    assert_eq!(join_path("C:\\dl", '\\', "a.txt"), "C:\\dl\\a.txt");
    assert_eq!(join_path("C:/dl/", '\\', "a.txt"), "C:/dl/a.txt");
    assert_eq!(join_path("/d\\", '/', "a.txt"), "/d\\/a.txt");
}

#[test]
fn a_receiver_asks_for_the_part_file_first() {
    let data = b"abcdef".to_vec();
    let mut r = Receiving::start("x", 6, 2, &blake3_of(&data), true).unwrap();
    assert_eq!(r.want(), Want::FromPart(2));
    assert_eq!(r.take(b"ab"), None);
    assert_eq!(r.want(), Want::FromPeer(4));
    assert_eq!(r.take(b"cdef"), Some(6));
    assert_eq!(r.want(), Want::Nothing);
    assert_eq!(r.finish(), Ok(()));
}

// ---------------------------------------------------------------------------
// Calling
// ---------------------------------------------------------------------------

fn test_manager() -> TransportManager {
    TransportManager::start(24917)
}

fn entry(name: &str, ip: Ipv4Addr, netmask: Ipv4Addr) -> IfaceEntry {
    IfaceEntry {
        name: name.to_string(),
        ip,
        netmask,
        broadcast: directed_broadcast(ip, netmask),
        is_virtual_hint: false,
    }
}

#[test]
fn affinity_sorted_addrs_unchanged_when_no_receiver_set() {
    let mgr = test_manager();
    let addrs = vec![
        IpAddr::V4(Ipv4Addr::new(8, 8, 8, 8)),
        IpAddr::V4(Ipv4Addr::new(192, 168, 1, 50)),
    ];
    assert_eq!(mgr.affinity_sorted_addrs(&addrs), addrs);
    assert_eq!(mgr.port(), 24917);
}

#[test]
fn affinity_sorted_addrs_unchanged_when_snapshot_is_empty() {
    let mut mgr = test_manager();
    mgr.set_iface_rx(IfaceSnapshot::default());
    let addrs = vec![
        IpAddr::V4(Ipv4Addr::new(8, 8, 8, 8)),
        IpAddr::V4(Ipv4Addr::new(192, 168, 1, 50)),
    ];
    assert_eq!(mgr.affinity_sorted_addrs(&addrs), addrs);
}

#[test]
fn affinity_sorted_addrs_puts_same_subnet_first() {
    let mut mgr = test_manager();
    let entries = vec![entry(
        "en0",
        Ipv4Addr::new(192, 168, 1, 10),
        Ipv4Addr::new(255, 255, 255, 0),
    )];
    mgr.set_iface_rx(IfaceSnapshot { generation: 1, entries });
    let addrs = vec![
        IpAddr::V4(Ipv4Addr::new(8, 8, 8, 8)),
        IpAddr::V4(Ipv4Addr::new(192, 168, 1, 50)),
        IpAddr::V4(Ipv4Addr::new(1, 1, 1, 1)),
    ];
    assert_eq!(
        mgr.affinity_sorted_addrs(&addrs),
        vec![
            IpAddr::V4(Ipv4Addr::new(192, 168, 1, 50)),
            IpAddr::V4(Ipv4Addr::new(8, 8, 8, 8)),
            IpAddr::V4(Ipv4Addr::new(1, 1, 1, 1)),
        ]
    );
}

#[test]
fn set_iface_rx_reflects_live_snapshot_updates() {
    let mut mgr = test_manager();
    mgr.set_iface_rx(IfaceSnapshot::default());
    let addrs = vec![
        IpAddr::V4(Ipv4Addr::new(8, 8, 8, 8)),
        IpAddr::V4(Ipv4Addr::new(192, 168, 1, 50)),
    ];
    assert_eq!(mgr.affinity_sorted_addrs(&addrs), addrs);
    mgr.set_iface_rx(IfaceSnapshot {
        generation: 2,
        entries: vec![entry(
            "en0",
            Ipv4Addr::new(192, 168, 1, 10),
            Ipv4Addr::new(255, 255, 255, 0),
        )],
    });
    assert_eq!(
        mgr.affinity_sorted_addrs(&addrs),
        vec![
            IpAddr::V4(Ipv4Addr::new(192, 168, 1, 50)),
            IpAddr::V4(Ipv4Addr::new(8, 8, 8, 8)),
        ]
    );
}

#[test]
fn send_to_dead_port_errors() {
    let mgr = test_manager();
    let mut call = mgr.dial(&vec![IpAddr::V4(Ipv4Addr::new(127, 0, 0, 1))]);
    assert_eq!(call.next(), Some(IpAddr::V4(Ipv4Addr::new(127, 0, 0, 1))));
    call.failed("connection refused".to_string());
    assert_eq!(call.next(), None);
    assert_eq!(call.error(), TransportError::Io("connection refused".to_string()));
}

#[test]
fn a_peer_without_an_address_cannot_be_called() {
    let call = test_manager().dial(&vec![]);
    assert_eq!(call.next(), None);
    assert_eq!(call.error(), TransportError::NoAddress);
    assert_eq!(TransportError::NoAddress.to_text(), "对端无可用地址");
    assert_eq!(TransportError::Tls("x".to_string()).to_text(), "tls: x");
    assert_eq!(TransportError::Rustls("x".to_string()).to_text(), "rustls: x");
    assert_eq!(TransportError::Io("x".to_string()).to_text(), "io: x");
}

#[test]
fn a_taken_port_is_given_up_for_any_port() {
    assert_eq!(fallback_port(24917), Some(0));
    assert_eq!(fallback_port(0), None);
}

#[test]
fn a_kept_connection_is_used_while_it_lives() {
    assert!(!conn_is_dead(ProbeRead::WouldBlock));
    assert!(!conn_is_dead(ProbeRead::CannotProbe));
    assert!(conn_is_dead(ProbeRead::Eof));
    assert!(conn_is_dead(ProbeRead::Data));
    assert!(conn_is_dead(ProbeRead::Failed));
    assert_eq!(send_first(false), SendStep::Dial);
    assert_eq!(send_first(true), SendStep::Probe);
    assert_eq!(send_next(SendStep::Probe, true).0, SendStep::WriteKept);
    assert_eq!(send_next(SendStep::WriteKept, true).0, SendStep::Done);
}

#[test]
fn a_dead_connection_is_replaced_by_a_new_one() {
    assert_eq!(send_next(SendStep::Probe, false), (SendStep::Dial, KeptChange::Drop));
    assert_eq!(send_next(SendStep::WriteKept, false), (SendStep::Dial, KeptChange::Drop));
    assert_eq!(send_next(SendStep::Dial, true).0, SendStep::WriteFresh);
    assert_eq!(send_next(SendStep::Dial, false).0, SendStep::Failed);
    assert_eq!(send_next(SendStep::WriteFresh, true), (SendStep::Done, KeptChange::Keep));
    assert_eq!(send_next(SendStep::WriteFresh, false).0, SendStep::Failed);
}

#[test]
fn progress_is_throttled_but_the_end_is_told() {
    let mut gate = ProgressGate::new();
    let at = |nanos: u64| Instant { nanos };
    assert!(gate.due(1, 10, at(0)));
    assert!(!gate.due(2, 10, at(PROGRESS_THROTTLE - 1)));
    assert!(gate.due(3, 10, at(PROGRESS_THROTTLE)));
    assert!(gate.due(10, 10, at(PROGRESS_THROTTLE + 1)));
}

// ---------------------------------------------------------------------------
// Messages and offers
// ---------------------------------------------------------------------------

#[test]
fn a_digest_is_held_against_the_announced_one() {
    assert_eq!(check_digest("ab".to_string(), "ab"), Ok(()));
    assert_eq!(
        check_digest("ab".to_string(), "AB"),
        Err(XferError::Checksum { expected: "AB".to_string(), actual: "ab".to_string() })
    );
}

#[test]
fn the_first_frame_tells_what_a_connection_is_for() {
    let fp = || Some("bbbb".to_string());
    assert_eq!(
        route_first(Ok(hello_frame()), fp()),
        FirstRoute::Messages { peer_fp: "bbbb".to_string() }
    );
    assert_eq!(
        route_first(Ok(data_frame("x", 4)), fp()),
        FirstRoute::FileData { xfer_id: "x".to_string(), offset: 4, peer_fp: "bbbb".to_string() }
    );
    assert_eq!(route_first(Ok(hello_frame()), None), FirstRoute::Drop);
    assert_eq!(route_first(Err(FrameError::Truncated), fp()), FirstRoute::Drop);
}

#[test]
fn bidirectional_text_and_reconnect() {
    let mut receiver = test_manager();
    let (frame, sent) = new_text("你好");
    let bytes = write_frame(&frame).unwrap();
    let (read, _) = read_frame(&bytes).unwrap();
    match receiver.read_loop(1, "aaaa", Ok(read)) {
        ReadStep::Report(TransportEvent::Message(m)) => {
            assert_eq!(m.peer_fp, "aaaa");
            assert_eq!(m.body, "你好");
            assert_eq!(m.id, sent.id);
            assert_eq!(m.ts_ms, sent.ts_ms);
            assert_eq!(m.sender_fp, None);
        }
        other => panic!("{other:?}"),
    }
    assert_eq!(receiver.read_loop(1, "aaaa", Err(FrameError::Truncated)), ReadStep::Close);
}

#[test]
fn an_offer_under_the_same_id_displaces_the_first() {
    let mut sender = test_manager();
    let mut receiver = test_manager();
    let (handle, offer) =
        sender.offer_file("/src/a.bin", Some("a.bin".to_string()), 3, "00".to_string());
    receiver.read_loop(5, "aaaa", Ok(offer.clone()));
    match receiver.read_loop(6, "aaaa", Ok(offer)) {
        ReadStep::Await(_, displaced) => assert_eq!(displaced, Some(5)),
        other => panic!("{other:?}"),
    }
    assert_eq!(receiver.respond_file(&handle.xfer_id, true, "/dl", 0).unwrap().conn, 6);
}

#[test]
fn offer_accept_transfer_verifies() {
    let data = b"some bytes".to_vec();
    let hash = blake3_of(&data);
    let mut sender = test_manager();
    let mut receiver = test_manager();

    let name = Some("a.bin".to_string());
    let (handle, offer) = sender.offer_file("/src/a.bin", name, data.len() as u64, hash.clone());
    match receiver.read_loop(5, "aaaa", Ok(offer)) {
        ReadStep::Await(
            TransportEvent::FileOffered { xfer_id, peer_fp, name, size, is_dir },
            displaced,
        ) => {
            assert_eq!(displaced, None);
            assert_eq!(xfer_id, handle.xfer_id);
            assert_eq!(peer_fp, "aaaa");
            assert_eq!(name, "a.bin");
            assert_eq!(size, data.len() as u64);
            assert!(!is_dir);
        }
        other => panic!("{other:?}"),
    }
    assert_eq!(receiver.offered_name(&handle.xfer_id), Some("a.bin".to_string()));

    let answer = receiver.respond_file(&handle.xfer_id, true, "/dl", 0).unwrap();
    assert_eq!(answer.conn, 5);
    assert_eq!(answer.event, None);
    match sender.await_offer_reply(&handle.xfer_id, Ok(answer.frame)) {
        ReplyStep::SendFile { path, size, offset } => {
            assert_eq!((path.as_str(), size, offset), ("/src/a.bin", data.len() as u64, 0));
        }
        other => panic!("{other:?}"),
    }

    let state = receiver.handle_file_receive(&handle.xfer_id, 0, "aaaa").unwrap();
    let got = receive_into(
        &state.download_dir,
        '/',
        &state.name,
        state.size,
        state.offset,
        &state.blake3,
        &data,
        &mut intake(None),
    )
    .unwrap();
    assert_eq!(got.contents, data);
    assert_eq!(
        receive_event(&handle.xfer_id, Ok(got.path)),
        TransportEvent::FileDone {
            xfer_id: handle.xfer_id.clone(),
            path: "/dl/a.bin".to_string()
        }
    );
    assert!(receiver.handle_file_receive(&handle.xfer_id, 0, "aaaa").is_err());
}

#[test]
fn reject_stops_transfer() {
    let mut sender = test_manager();
    let mut receiver = test_manager();
    let name = Some("a.bin".to_string());
    let (handle, offer) = sender.offer_file("/src/a.bin", name, 3, "00".to_string());
    receiver.read_loop(5, "aaaa", Ok(offer));
    let answer = receiver.respond_file(&handle.xfer_id, false, "/dl", 0).unwrap();
    assert_eq!(answer.frame, Frame::FileReject { xfer_id: handle.xfer_id.clone() });
    match sender.await_offer_reply(&handle.xfer_id, Ok(answer.frame)) {
        ReplyStep::Report(TransportEvent::FileFailed { xfer_id, .. }) => {
            assert_eq!(xfer_id, handle.xfer_id);
        }
        other => panic!("{other:?}"),
    }
    assert!(receiver.handle_file_receive(&handle.xfer_id, 0, "aaaa").is_err());
    assert!(receiver.respond_file(&handle.xfer_id, true, "/dl", 0).is_none());
}

#[test]
fn bytes_of_another_peer_or_offset_are_refused() {
    let mut receiver = test_manager();
    let offer = |id: &str| Frame::FileOffer {
        xfer_id: id.to_string(),
        name: "a.bin".to_string(),
        size: 10,
        blake3: "00".to_string(),
    };
    for id in ["one", "two"] {
        receiver.read_loop(5, "aaaa", Ok(offer(id)));
        receiver.respond_file(id, true, "/dl", 4).unwrap();
    }
    assert!(receiver.handle_file_receive("one", 4, "cccc").is_err());
    assert!(receiver.handle_file_receive("two", 5, "aaaa").is_err());
}

#[test]
fn a_failed_offer_is_forgotten() {
    let mut sender = test_manager();
    let name = Some("a.bin".to_string());
    let (handle, _) = sender.offer_file("/src/a.bin", name, 3, "00".to_string());
    sender.offer_failed(&handle.xfer_id);
    let accept = Frame::FileAccept { xfer_id: handle.xfer_id.clone(), offset: 0 };
    assert_eq!(sender.await_offer_reply(&handle.xfer_id, Ok(accept)), ReplyStep::Nothing);
    assert_eq!(
        send_event("x", "/p", Err(TransportError::Io("gone".to_string()))),
        TransportEvent::FileFailed { xfer_id: "x".to_string(), reason: "io: gone".to_string() }
    );
}
