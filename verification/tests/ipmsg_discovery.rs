use bigpaw::addr::{Ipv4Addr, SocketAddr};
use bigpaw::ipmsg::command;
use bigpaw::ipmsg::command::Command;
use bigpaw::ipmsg::discovery::{
    broadcast, default_broadcast_targets, dispatch, entry_extra, file_offer_packet, new_self_token,
    next_packet_no, parse_peer_group, self_token_at, Action, IpmsgError, IpmsgEvent, IpmsgService,
    IPMSG_VERSION,
};
use bigpaw::ipmsg::filexfer;
use bigpaw::ipmsg::proto;
use bigpaw::ipmsg::proto::{Packet, BIGPAW_TAG};
use bigpaw::ipmsg::IPMSG_PORT;
use bigpaw::moment::Instant;

#[test]
fn ipmsg_port_is_2425() {
    assert_eq!(IPMSG_PORT, 2425);
}

#[test]
fn command_num_extracts_low_byte() {
    let c = command::build(command::SENDMSG, &[command::SENDCHECKOPT]);
    assert_eq!(Command(c).num(), command::SENDMSG);
    assert!(Command(c).has_opt(command::SENDCHECKOPT));
    assert!(!Command(c).has_opt(command::FILEATTACHOPT));
}

#[test]
fn file_attach_opt_combines() {
    let c = command::build(command::SENDMSG, &[command::FILEATTACHOPT]);
    assert_eq!(Command(c).num(), command::SENDMSG);
    assert!(Command(c).has_opt(command::FILEATTACHOPT));
}

fn br_entry(sender: &str, host: &str, extra: &str) -> Packet {
    Packet {
        version: IPMSG_VERSION.to_string(),
        packet_no: 1,
        sender: sender.to_string(),
        host: host.to_string(),
        command: command::BR_ENTRY,
        extra: extra.to_string(),
    }
}

fn src_addr() -> SocketAddr {
    SocketAddr { ip: Ipv4Addr::new(192, 168, 1, 42), port: 2425 }
}

const TEST_TOKEN: &str = "test-self-token-deadbeef";

#[test]
fn dispatch_br_entry_replies_ansentry_and_emits_online() {
    let mut counter: u32 = 1;
    let packet = br_entry("alice", "HOST-A", &entry_extra("alice", None, "peer-token"));
    match dispatch(&packet, src_addr(), "me", None, "HOST-ME", &mut counter, TEST_TOKEN) {
        Action::ReplyAndEmit(
            reply,
            IpmsgEvent::Online {
                key,
                nick,
                host,
                addr,
                is_bigpaw,
                ..
            },
        ) => {
            assert_eq!(Command(reply.command).num(), command::ANSENTRY);
            assert_eq!(reply.sender, "me");
            assert_eq!(reply.host, "HOST-ME");
            assert!(reply.extra.contains(BIGPAW_TAG));
            assert_eq!(key, "192.168.1.42:HOST-A");
            assert_eq!(nick, "alice");
            assert_eq!(host, "HOST-A");
            assert_eq!(addr, src_addr());
            assert!(is_bigpaw);
        }
        _ => panic!("expected ReplyAndEmit"),
    }
}

#[test]
fn dispatch_br_entry_from_real_feiq_is_not_bigpaw() {
    let mut counter: u32 = 1;
    let packet = br_entry("feiq-user", "HOST-B", "");
    match dispatch(&packet, src_addr(), "me", None, "HOST-ME", &mut counter, TEST_TOKEN) {
        Action::ReplyAndEmit(_, IpmsgEvent::Online { is_bigpaw, .. }) => {
            assert!(!is_bigpaw);
        }
        _ => panic!("expected ReplyAndEmit"),
    }
}

#[test]
fn dispatch_ansentry_emits_online_without_reply() {
    let mut counter: u32 = 1;
    let mut packet = br_entry("bob", "HOST-B", &entry_extra("bob", None, "peer-token"));
    packet.command = command::ANSENTRY;
    match dispatch(&packet, src_addr(), "me", None, "HOST-ME", &mut counter, TEST_TOKEN) {
        Action::Emit(IpmsgEvent::Online {
            key, nick, host, ..
        }) => {
            assert_eq!(key, "192.168.1.42:HOST-B");
            assert_eq!(nick, "bob");
            assert_eq!(host, "HOST-B");
        }
        _ => panic!("expected Emit(Online)"),
    }
}

#[test]
fn dispatch_br_exit_emits_offline() {
    let mut counter: u32 = 1;
    let mut packet = br_entry("bob", "HOST-B", "");
    packet.command = command::BR_EXIT;
    match dispatch(&packet, src_addr(), "me", None, "HOST-ME", &mut counter, TEST_TOKEN) {
        Action::Emit(IpmsgEvent::Offline { key }) => {
            assert_eq!(key, "192.168.1.42:HOST-B");
        }
        _ => panic!("expected Emit(Offline)"),
    }
}

fn sendmsg_packet(sender: &str, host: &str, extra: &str, with_checkopt: bool) -> Packet {
    let command = if with_checkopt {
        command::build(command::SENDMSG, &[command::SENDCHECKOPT])
    } else {
        command::SENDMSG
    };
    Packet {
        version: IPMSG_VERSION.to_string(),
        packet_no: 7,
        sender: sender.to_string(),
        host: host.to_string(),
        command,
        extra: extra.to_string(),
    }
}

fn recvmsg_packet(sender: &str, host: &str, acked_no: &str) -> Packet {
    Packet {
        version: IPMSG_VERSION.to_string(),
        packet_no: 8,
        sender: sender.to_string(),
        host: host.to_string(),
        command: command::RECVMSG,
        extra: acked_no.to_string(),
    }
}

#[test]
fn dispatch_sendmsg_with_checkopt_emits_text_and_replies_recvmsg() {
    let mut counter: u32 = 1;
    let packet = sendmsg_packet("alice", "HOST-A", "你好,BigPaw", true);
    let original_no = packet.packet_no;
    match dispatch(&packet, src_addr(), "me", None, "HOST-ME", &mut counter, TEST_TOKEN) {
        Action::ReplyAndEmit(reply, IpmsgEvent::TextReceived { key, from, body }) => {
            assert_eq!(Command(reply.command).num(), command::RECVMSG);
            assert_eq!(reply.extra, original_no.to_string());
            assert_eq!(reply.sender, "me");
            assert_eq!(reply.host, "HOST-ME");
            assert_eq!(key, "192.168.1.42:HOST-A");
            assert_eq!(from, "alice");
            assert_eq!(body, "你好,BigPaw");
        }
        _ => panic!("expected ReplyAndEmit(TextReceived)"),
    }
}

#[test]
fn dispatch_sendmsg_without_checkopt_emits_text_without_reply() {
    let mut counter: u32 = 1;
    let packet = sendmsg_packet("bob", "HOST-B", "hello", false);
    match dispatch(&packet, src_addr(), "me", None, "HOST-ME", &mut counter, TEST_TOKEN) {
        Action::Emit(IpmsgEvent::TextReceived { key, from, body }) => {
            assert_eq!(key, "192.168.1.42:HOST-B");
            assert_eq!(from, "bob");
            assert_eq!(body, "hello");
        }
        _ => panic!("expected Emit(TextReceived) without reply"),
    }
}

#[test]
fn dispatch_recvmsg_acks_original_packet_no() {
    let mut counter: u32 = 1;
    let packet = recvmsg_packet("alice", "HOST-A", "42");
    assert!(matches!(
        dispatch(&packet, src_addr(), "me", None, "HOST-ME", &mut counter, TEST_TOKEN),
        Action::Ack(42)
    ));
}

#[test]
fn dispatch_recvmsg_with_garbage_extra_is_ignored() {
    let mut counter: u32 = 1;
    let packet = recvmsg_packet("alice", "HOST-A", "not-a-number");
    assert!(matches!(
        dispatch(&packet, src_addr(), "me", None, "HOST-ME", &mut counter, TEST_TOKEN),
        Action::Ignore
    ));
}

#[test]
fn dispatch_sendmsg_chinese_body_roundtrips_through_wire() {
    let mut counter: u32 = 1;
    let packet = sendmsg_packet("alice", "HOST-A", "你好,世界🐾", true);
    let wire = proto::encode(&packet);
    let decoded = proto::decode(&wire).unwrap();
    match dispatch(&decoded, src_addr(), "me", None, "HOST-ME", &mut counter, TEST_TOKEN) {
        Action::ReplyAndEmit(_, IpmsgEvent::TextReceived { body, .. }) => {
            assert!(body.starts_with("你好,世界"));
            assert!(body.contains('?'));
        }
        _ => panic!("expected ReplyAndEmit(TextReceived)"),
    }
}

#[test]
fn dispatch_sendmsg_with_fileattachopt_emits_file_offered() {
    let mut counter: u32 = 1;
    let extra =
        filexfer::build_file_offer_extra("", 0, "图片.png", 1000, 0, filexfer::FILE_REGULAR);
    let command = command::build(command::SENDMSG, &[command::FILEATTACHOPT]);
    let packet = Packet {
        version: IPMSG_VERSION.to_string(),
        packet_no: 99,
        sender: "alice".to_string(),
        host: "HOST-A".to_string(),
        command,
        extra,
    };
    match dispatch(&packet, src_addr(), "me", None, "HOST-ME", &mut counter, TEST_TOKEN) {
        Action::Emit(IpmsgEvent::FileOffered {
            key,
            from,
            packet_no,
            files,
        }) => {
            assert_eq!(key, "192.168.1.42:HOST-A");
            assert_eq!(from, "alice");
            assert_eq!(packet_no, 99);
            assert_eq!(files.len(), 1);
            assert_eq!(files[0].name, "图片.png");
            assert_eq!(files[0].size, 1000);
            assert!(!files[0].is_dir);
        }
        _ => panic!("expected Emit(FileOffered)"),
    }
}

#[test]
fn dispatch_sendmsg_fileattachopt_with_checkopt_still_replies_recvmsg() {
    let mut counter: u32 = 1;
    let extra = filexfer::build_file_offer_extra(
        "看这个",
        3,
        "report.pdf",
        2048,
        0,
        filexfer::FILE_REGULAR,
    );
    let command = command::build(
        command::SENDMSG,
        &[command::FILEATTACHOPT, command::SENDCHECKOPT],
    );
    let packet = Packet {
        version: IPMSG_VERSION.to_string(),
        packet_no: 55,
        sender: "bob".to_string(),
        host: "HOST-B".to_string(),
        command,
        extra,
    };
    match dispatch(&packet, src_addr(), "me", None, "HOST-ME", &mut counter, TEST_TOKEN) {
        Action::ReplyAndEmit(
            reply,
            IpmsgEvent::FileOffered {
                packet_no, files, ..
            },
        ) => {
            assert_eq!(Command(reply.command).num(), command::RECVMSG);
            assert_eq!(reply.extra, "55");
            assert_eq!(packet_no, 55);
            assert_eq!(files[0].name, "report.pdf");
        }
        _ => panic!("expected ReplyAndEmit(FileOffered)"),
    }
}

#[test]
fn file_offer_packet_has_fileattachopt_and_parses_back() {
    let p = file_offer_packet("me", "HOST-ME", 9, 0, "图片.png", 1000, 0);
    assert_eq!(Command(p.command).num(), command::SENDMSG);
    assert!(Command(p.command).has_opt(command::FILEATTACHOPT));
    assert!(Command(p.command).has_opt(command::SENDCHECKOPT));
    let (_body, files) = filexfer::parse_file_attach_extra(&p.extra);
    assert_eq!(files.len(), 1);
    assert_eq!(files[0].name, "图片.png");
    assert_eq!(files[0].size, 1000);
    assert!(!files[0].is_dir);
}

#[test]
fn dispatch_unknown_command_is_ignored() {
    let mut counter: u32 = 1;
    let mut packet = br_entry("bob", "HOST-B", "");
    packet.command = command::GETFILEDATA;
    assert!(matches!(
        dispatch(&packet, src_addr(), "me", None, "HOST-ME", &mut counter, TEST_TOKEN),
        Action::Ignore
    ));
}

#[test]
fn entry_extra_embeds_bigpaw_tag_and_self_token() {
    let extra = entry_extra("nick", None, "tok123");
    assert!(extra.starts_with("nick"));
    assert!(extra.contains(BIGPAW_TAG));
    assert!(extra.contains("tok123"));
}

#[test]
fn entry_extra_with_group_inserts_before_tag() {
    let e = entry_extra("猫", Some("研发部"), "tok");
    assert_eq!(e, format!("猫\u{0}研发部{BIGPAW_TAG}tok"));
    let e2 = entry_extra("猫", None, "tok");
    assert_eq!(e2, format!("猫{BIGPAW_TAG}tok"));
}

#[test]
fn parse_peer_group_covers_feiq_and_bigpaw_shapes() {
    assert_eq!(parse_peer_group("张三\u{0}市场部"), Some("市场部".to_string()));
    assert_eq!(parse_peer_group("张三"), None);
    assert_eq!(parse_peer_group("猫\u{0}BIGPAWtok"), None);
    assert_eq!(
        parse_peer_group("猫\u{0}研发部\u{0}BIGPAWtok"),
        Some("研发部".to_string())
    );
    assert_eq!(parse_peer_group("张三\u{0}"), None);
    assert_eq!(parse_peer_group("a\u{0}组:名"), Some("组:名".to_string()));
}

#[test]
fn dispatch_br_entry_emits_online_with_group() {
    let mut counter: u32 = 1;
    let packet = br_entry("张三", "HOST-F", "张三\u{0}市场部");
    match dispatch(
        &packet,
        src_addr(),
        "me",
        None,
        "HOST-ME",
        &mut counter,
        TEST_TOKEN,
    ) {
        Action::ReplyAndEmit(_, IpmsgEvent::Online { group, .. }) => {
            assert_eq!(group, Some("市场部".to_string()));
        }
        _ => panic!("expected ReplyAndEmit(Online)"),
    }
}

#[test]
fn dispatch_br_entry_reply_carries_own_group() {
    let mut counter: u32 = 1;
    let packet = br_entry("alice", "HOST-A", "");
    match dispatch(
        &packet,
        src_addr(),
        "me",
        Some("后端组"),
        "HOST-ME",
        &mut counter,
        TEST_TOKEN,
    ) {
        Action::ReplyAndEmit(reply, _) => {
            assert_eq!(reply.extra, entry_extra("me", Some("后端组"), TEST_TOKEN));
        }
        _ => panic!("expected ReplyAndEmit"),
    }
}

#[test]
fn dispatch_packet_with_own_self_token_is_ignored() {
    let mut counter: u32 = 1;
    let packet = br_entry("me", "HOST-ME", &entry_extra("me", None, TEST_TOKEN));
    assert!(matches!(
        dispatch(&packet, src_addr(), "me", None, "HOST-ME", &mut counter, TEST_TOKEN),
        Action::Ignore
    ));
}

#[test]
fn dispatch_packet_with_different_token_is_not_filtered() {
    let mut counter: u32 = 1;
    let packet = br_entry(
        "alice",
        "HOST-A",
        &entry_extra("alice", None, "a-different-token"),
    );
    match dispatch(&packet, src_addr(), "me", None, "HOST-ME", &mut counter, TEST_TOKEN) {
        Action::ReplyAndEmit(_, IpmsgEvent::Online { is_bigpaw, .. }) => {
            assert!(is_bigpaw);
        }
        _ => panic!("expected ReplyAndEmit(Online) for a real peer with a different token"),
    }
}

#[test]
fn default_broadcast_targets_is_global_broadcast() {
    assert_eq!(default_broadcast_targets(), vec![Ipv4Addr::new(255, 255, 255, 255)]);
}

#[test]
fn broadcast_with_empty_targets_sends_nothing() {
    assert!(broadcast(&[], 2425).is_empty());
}

#[test]
fn broadcast_sends_to_every_target_in_a_single_call() {
    const TARGET_COUNT: usize = 3;
    let localhost = Ipv4Addr::new(127, 0, 0, 1);
    let sends = broadcast(&vec![localhost; TARGET_COUNT], 2425);
    assert_eq!(sends, vec![SocketAddr { ip: localhost, port: 2425 }; TARGET_COUNT]);
}

#[test]
fn send_entry_carries_given_nick() {
    let mut service = IpmsgService::start("改后名", None, "HOST-X", "tok-abc");
    let p = proto::decode(&proto::encode(&service.entry())).unwrap();
    assert_eq!(Command(p.command).num(), command::BR_ENTRY);
    assert_eq!(p.sender, "改后名");
}

#[test]
fn set_nick_updates_unicast_text_sender() {
    let mut service = IpmsgService::start("旧名", None, "HOST-X", "tok-abc");
    let announced = service.set_nick("新名");
    assert_eq!(announced.sender, "新名");
    let p = proto::decode(&proto::encode(&service.send_text("hi"))).unwrap();
    assert_eq!(p.sender, "新名");
}

fn probe_br_entry_with_filter(allowed: bool) -> (bool, bool) {
    let mut service = IpmsgService::start("me", None, "HOST-ME", TEST_TOKEN);
    let entry = br_entry("远端", "HOST-PEER", "远端\0");
    match service.receive(&proto::encode(&entry), src_addr(), allowed) {
        Action::ReplyAndEmit(reply, event) => (
            Command(reply.command).num() == command::ANSENTRY,
            matches!(event, IpmsgEvent::Online { .. }),
        ),
        Action::Emit(event) => (false, matches!(event, IpmsgEvent::Online { .. })),
        _ => (false, false),
    }
}

#[test]
fn peer_filter_rejecting_source_suppresses_reply_and_event() {
    let (replied, online) = probe_br_entry_with_filter(false);
    assert!(!replied);
    assert!(!online);
}

#[test]
fn peer_filter_allowing_source_keeps_normal_behaviour() {
    let (replied, online) = probe_br_entry_with_filter(true);
    assert!(replied);
    assert!(online);
}

#[test]
fn own_announcement_and_farewell_are_ignored() {
    let mut service = IpmsgService::start("me", Some("组"), "HOST-ME", TEST_TOKEN);
    let entry = proto::encode(&service.entry());
    assert_eq!(service.receive(&entry, src_addr(), true), Action::Ignore);
    let farewell = service.shutdown();
    assert_eq!(Command(farewell.command).num(), command::BR_EXIT);
    assert_eq!(service.receive(&proto::encode(&farewell), src_addr(), true), Action::Ignore);
}

#[test]
fn a_receipt_answers_the_message_with_its_number() {
    let mut us = IpmsgService::start("me", None, "HOST-ME", "token-of-me");
    let mut them = IpmsgService::start("you", None, "HOST-YOU", "token-of-you");
    let message = us.send_text("hi");
    us.note_sent(message.packet_no, Instant { nanos: 1 });
    let receipt = match them.receive(&proto::encode(&message), src_addr(), true) {
        Action::ReplyAndEmit(reply, IpmsgEvent::TextReceived { body, .. }) => {
            assert_eq!(body, "hi");
            reply
        }
        other => panic!("{other:?}"),
    };
    assert_eq!(
        us.receive(&proto::encode(&receipt), src_addr(), true),
        Action::Ack(message.packet_no)
    );
}

#[test]
fn a_file_is_offered_and_fetched_by_its_numbers() {
    let mut us = IpmsgService::start("me", None, "HOST-ME", "token-of-me");
    let offer = us.send_file(false, Some("a.txt"), 5, 0).unwrap();
    us.note_offered(offer.packet_no, "/tmp/a.txt".to_string(), Instant { nanos: 1 });
    let mut them = IpmsgService::start("you", None, "HOST-YOU", "token-of-you");
    let request = them.request_file(offer.packet_no, 0);
    assert_eq!(
        us.serve(&proto::encode(&request)),
        Some(("/tmp/a.txt".to_string(), 0))
    );
    let unknown = them.request_file(offer.packet_no, 1);
    assert_eq!(us.serve(&proto::encode(&unknown)), None);
    let dir = them.request_dir(31, 2);
    assert_eq!(Command(dir.command).num(), command::GETDIRFILES);
    assert_eq!(dir.extra, "1f:2");
}

#[test]
fn errors_of_sending_a_file() {
    let mut us = IpmsgService::start("me", None, "HOST-ME", TEST_TOKEN);
    assert_eq!(us.send_file(true, Some("d"), 0, 0), Err(IpmsgError::FolderSendUnsupported));
    assert_eq!(us.send_file(false, None, 0, 0), Err(IpmsgError::BadName));
    assert_eq!(IpmsgError::Io("gone".to_string()).to_text(), "io: gone");
    assert_eq!(IpmsgError::PortInUse.to_text(), "port already in use");
    assert_eq!(IpmsgError::BadName.to_text(), "非法文件名(可能路径穿越)");
    assert_eq!(IpmsgError::FolderSendUnsupported.to_text(), "不支持发送文件夹(仅支持接收)");
}

#[test]
fn packet_numbers_wrap_and_tokens_are_times() {
    let mut n: u32 = u32::MAX;
    assert_eq!(next_packet_no(&mut n), u32::MAX);
    assert_eq!(next_packet_no(&mut n), 0);
    assert_eq!(self_token_at(255), "ff");
    let token = new_self_token();
    assert!(u128::from_str_radix(&token, 16).unwrap() > 1_000_000_000_000_000_000);
}

#[test]
fn a_changed_group_is_announced() {
    let mut us = IpmsgService::start("me", None, "HOST-ME", TEST_TOKEN);
    let announced = us.set_group(Some("研发部"));
    assert_eq!(parse_peer_group(&announced.extra), Some("研发部".to_string()));
    assert_eq!(parse_peer_group(&us.set_group(None).extra), None);
}
