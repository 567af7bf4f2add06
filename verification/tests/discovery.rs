use bigpaw::addr::{IpAddr, Ipv4Addr, SocketAddr};
use bigpaw::discovery::announce::{
    announcement_from, begin_sync, decode, encode, listened_to, note_join, own_datagram, poke_target, send_allowed, send_dual,
    sync_multicast, target_sends, truncate_nick, AnnounceError, Announcement, Heard, HistoryStore,
    Listener, SendLoop, MIN_SEND_BATCH_INTERVAL, MULTICAST_GROUP, REPLY_RATE_LIMIT, SLEEP_STEP,
};
use bigpaw::discovery::mdns::{
    build_service_info, exclusion_diff, Browser, Discovery, Resolved, ShortFingerprint,
};
use bigpaw::moment::Instant;
use bigpaw::net_ifaces::{IfaceEntry, SendTarget};
use bigpaw::roster::{DiscoveryEvent, Protocol};

const MILLI: u64 = 1_000_000;

fn at(millis: u64) -> Instant {
    Instant { nanos: millis * MILLI }
}

// ---------------------------------------------------------------------------
// Announcements
// ---------------------------------------------------------------------------

fn ann() -> Announcement {
    Announcement {
        v: 1,
        fp: "a".repeat(64),
        nick: "alice".to_string(),
        tport: 24917,
        caps: "native".to_string(),
    }
}

#[test]
fn encode_decode_roundtrip() {
    let a = ann();
    let buf = encode(&a);
    assert!(buf.len() <= 1400);
    assert_eq!(decode(&buf), Some(a));
}

#[test]
fn decode_rejects_garbage() {
    assert_eq!(decode(b"not json"), None);
    assert_eq!(decode(b"{}"), None);
    assert_eq!(decode(&[0xff, 0xfe]), None);
}

#[test]
fn an_array_of_the_fields_is_an_announcement() {
    let fp = "a".repeat(64);
    let given = format!("[1,\"{fp}\",\"alice\",24917,\"native\"]");
    assert_eq!(decode(given.as_bytes()), Some(ann()));
    let longer = format!("[1,\"{fp}\",\"alice\",24917,\"native\",0]");
    assert_eq!(decode(longer.as_bytes()), None);
    let shorter = format!("[1,\"{fp}\",\"alice\",24917]");
    assert_eq!(decode(shorter.as_bytes()), None);
    let other_version = format!("[2,\"{fp}\",\"alice\",24917,\"native\"]");
    assert_eq!(decode(other_version.as_bytes()), None);
}

#[test]
fn an_announcement_is_made_of_its_members() {
    let text = |s: &str| Some(s.to_string());
    let from = |v: u16, fp: &str, tport: Option<u16>| {
        announcement_from(Some(v), text(fp), text("alice"), tport, text("native"))
    };
    let fp = "a".repeat(64);
    assert_eq!(from(1, &fp, Some(24917)), Some(ann()));
    assert_eq!(from(2, &fp, Some(24917)), None);
    assert_eq!(from(1, "short", Some(24917)), None);
    assert_eq!(from(1, &fp, None), None);
    assert_eq!(listened_to(ann()), Some(ann()));
    assert_eq!(listened_to(Announcement { v: 0, ..ann() }), None);
}

/// A datagram with these members beside the five that are known.
fn with_more(more: &str) -> Vec<u8> {
    let fp = "a".repeat(64);
    format!(
        " {{\"v\" : 1 ,{more}\"fp\":\"{fp}\",\n\t\"nick\":\"alice\",\"tport\":24917,\"caps\":\"native\"}}\r\n"
    )
    .into_bytes()
}

#[test]
fn what_an_announcement_holds_besides_is_passed_over() {
    assert_eq!(decode(&with_more("")), Some(ann()));
    let deep = format!("{}{}", "[".repeat(400), "]".repeat(400));
    for odd in ["[]", "null", "{\"v\":2}", "1e999", "\"\\ud800\"", "\"\\\"}\"", deep.as_str()] {
        assert_eq!(decode(&with_more(&format!("\"x\":{odd},"))), Some(ann()), "{odd}");
        assert_eq!(decode(&with_more(&format!("\"x\":{odd},\"x\":{odd},"))), Some(ann()));
    }
    let mut bytes = with_more("\"x\":\"?\",");
    let at = bytes.iter().position(|b| *b == b'?').unwrap();
    bytes[at] = 0xff;
    assert_eq!(decode(&bytes), Some(ann()));
    // A key is text.
    let mut bytes = with_more("\"?\":0,");
    let at = bytes.iter().position(|b| *b == b'?').unwrap();
    bytes[at] = 0xff;
    assert_eq!(decode(&bytes), None);
    assert_eq!(decode(&with_more("\"\\ud800\":0,")), None);
    assert_eq!(decode(&with_more("x:0,")), None);
    assert_eq!(decode(&with_more("\"x\":,")), None);
    assert_eq!(decode(&with_more("\"x\" 0,")), None);
    assert_eq!(decode(&with_more("\"x\":01,")), None);
}

#[test]
fn a_field_that_occurs_twice_is_refused() {
    assert_eq!(decode(&with_more("\"v\":1,")), None);
    assert_eq!(decode(&with_more("\"\\u0076\":1,")), None);
    assert_eq!(decode(&with_more("\"nick\":\"alice\",")), None);
    assert_eq!(decode(&with_more("\"nick2\":\"alice\",")), Some(ann()));
}

#[test]
fn a_field_is_of_its_kind() {
    let given = String::from_utf8(with_more("")).unwrap();
    let with = |old: &str, new: &str| decode(given.replace(old, new).as_bytes());
    assert_eq!(with("24917", "24918").unwrap().tport, 24918);
    assert_eq!(with("24917", "65535").unwrap().tport, 65_535);
    assert_eq!(with("24917", "65536"), None);
    assert_eq!(with("24917", "24917.0"), None);
    assert_eq!(with("24917", "-1"), None);
    assert_eq!(with("24917", "\"24917\""), None);
    assert_eq!(with("alice", "\\u0061lice").unwrap().nick, "alice");
    assert_eq!(with("\"alice\"", "null"), None);
    assert_eq!(with("\"nick\"", "\"name\""), None);
    assert_eq!(with("}", "}x"), None);
    assert_eq!(with("}", ",}"), None);
    assert_eq!(with("}", ""), None);
    assert_eq!(with("{", "{,"), None);
}

#[test]
fn an_announcement_that_was_read_is_heard() {
    let src = IpAddr::V4(Ipv4Addr::new(10, 0, 0, 7));
    let mut l = Listener::new("b".repeat(64));
    assert!(matches!(l.hear_announcement(None, src, at(0), true), Heard::Nothing));
    match l.hear_announcement(Some(ann()), src, at(0), true) {
        Heard::Seen { event: DiscoveryEvent::Seen { fingerprint, nickname, addrs, port, .. }, reply } => {
            assert_eq!(fingerprint, "a".repeat(64));
            assert_eq!(nickname, "alice");
            assert_eq!(addrs, vec![src]);
            assert_eq!(port, 24917);
            assert!(reply);
        }
        other => panic!("{other:?}"),
    }
    let again = l.hear_announcement(Some(ann()), src, at(4999), true);
    assert!(matches!(again, Heard::Seen { reply: false, .. }));
    let mut own = Listener::new("a".repeat(64));
    assert!(matches!(own.hear_announcement(Some(ann()), src, at(0), true), Heard::Nothing));
}

#[test]
fn long_nick_is_truncated_to_fit_mtu() {
    let mut a = ann();
    a.nick = "长".repeat(500);
    let buf = encode(&a);
    assert!(buf.len() <= 1400);
    let back = decode(&buf).unwrap();
    assert!(back.nick.len() <= 64);
    assert_eq!(back.nick, "长".repeat(21));
    assert_eq!(truncate_nick("short"), "short");
}

#[test]
fn the_datagram_is_json() {
    let text = String::from_utf8(own_datagram("ff", "a\"b\u{1}", 7)).unwrap();
    assert_eq!(
        text,
        "{\"v\":1,\"fp\":\"ff\",\"nick\":\"a\\\"b\\u0001\",\"tport\":7,\"caps\":\"native\"}"
    );
}

#[test]
fn history_dedup_and_cap() {
    let mut h = HistoryStore::load(vec![]);
    for i in 0..60u8 {
        h.record(IpAddr::V4(Ipv4Addr::new(192, 168, 1, i)));
    }
    h.record(IpAddr::V4(Ipv4Addr::new(192, 168, 1, 5)));
    assert!(h.ips().len() <= 50);
    let h2 = HistoryStore::load(h.ips());
    assert_eq!(h2.ips(), h.ips());
}

#[test]
fn an_address_seen_again_comes_first() {
    let ip = |i: u8| IpAddr::V4(Ipv4Addr::new(10, 0, 0, i));
    let mut h = HistoryStore::load(vec![ip(1), ip(2), ip(3)]);
    h.record(ip(3));
    assert_eq!(h.ips(), vec![ip(3), ip(1), ip(2)]);
}

fn test_entry(ip: Ipv4Addr) -> IfaceEntry {
    IfaceEntry {
        name: "test0".to_string(),
        ip,
        netmask: Ipv4Addr::new(255, 255, 255, 0),
        broadcast: Ipv4Addr::new(203, 0, 113, 255),
        is_virtual_hint: false,
    }
}

#[test]
fn sync_multicast_does_not_record_failed_join() {
    let mut joined = Vec::new();
    let entries = vec![test_entry(Ipv4Addr::new(203, 0, 113, 5))];
    let plan = sync_multicast(&mut joined, &entries, &[]);
    assert_eq!(plan.join, vec![Ipv4Addr::new(203, 0, 113, 5)]);
    assert!(joined.is_empty());
}

#[test]
fn sync_multicast_removes_ip_no_longer_in_snapshot() {
    let mut joined = vec![Ipv4Addr::new(203, 0, 113, 5)];
    let plan = sync_multicast(&mut joined, &[], &[]);
    assert_eq!(plan.leave, vec![Ipv4Addr::new(203, 0, 113, 5)]);
    assert!(joined.is_empty());
}

#[test]
fn sync_multicast_is_a_no_op_when_already_in_sync() {
    let mut joined = Vec::new();
    let plan = sync_multicast(&mut joined, &[], &[]);
    assert!(joined.is_empty() && plan.join.is_empty() && plan.leave.is_empty());
}

#[test]
fn a_join_counts_once_it_has_succeeded() {
    let ip = Ipv4Addr::new(203, 0, 113, 5);
    let mut joined = vec![Ipv4Addr::new(10, 0, 0, 1)];
    let plan = begin_sync(&mut joined, &[test_entry(ip)]);
    assert_eq!(plan.leave, vec![Ipv4Addr::new(10, 0, 0, 1)]);
    assert!(joined.is_empty());
    note_join(&mut joined, ip, false);
    assert!(joined.is_empty());
    note_join(&mut joined, ip, true);
    assert_eq!(joined, vec![ip]);
    let settled = sync_multicast(&mut joined, &[test_entry(ip)], &[]);
    assert!(settled.join.is_empty() && settled.leave.is_empty());
}

#[test]
fn send_dual_with_empty_entries_sends_nothing() {
    assert!(send_dual(24916, &[], &[]).is_empty());
}

#[test]
fn send_dual_still_sends_broadcast_when_multicast_if_switch_fails() {
    let mut entry = test_entry(Ipv4Addr::new(203, 0, 113, 5));
    entry.broadcast = Ipv4Addr::new(127, 0, 0, 1);
    let to = SocketAddr { ip: Ipv4Addr::new(127, 0, 0, 1), port: 24916 };
    assert_eq!(send_dual(24916, &[entry.clone()], &[]), vec![to]);
    let group = SocketAddr { ip: Ipv4Addr { bits: MULTICAST_GROUP }, port: 24916 };
    assert_eq!(send_dual(24916, &[entry.clone()], &[entry.ip]), vec![group, to]);
    let t = SendTarget { iface_ip: entry.ip, broadcast: entry.broadcast };
    assert_eq!(target_sends(t, 24916, true), vec![group, to]);
    assert_eq!(Ipv4Addr { bits: MULTICAST_GROUP }.to_text(), "239.255.77.88");
}

#[test]
fn send_allowed_is_false_within_the_min_interval() {
    let last = at(5_000);
    assert!(!send_allowed(last, at(5_000 + 200)));
    assert!(!send_allowed(last, at(5_000 + 999)));
}

#[test]
fn send_allowed_is_true_at_and_after_the_min_interval() {
    let last = at(5_000);
    assert!(send_allowed(last, Instant { nanos: last.nanos + MIN_SEND_BATCH_INTERVAL }));
    assert!(send_allowed(last, at(5_000 + 2_000)));
}

#[test]
fn recv_loop_does_not_reply_when_all_interfaces_excluded() {
    let mut listener = Listener::new("b".repeat(64));
    let src = IpAddr::V4(Ipv4Addr::new(127, 0, 0, 1));
    match listener.hear(&encode(&ann()), src, at(0), false) {
        Heard::Seen { reply, .. } => assert!(!reply),
        Heard::Nothing => panic!(),
    }
}

#[test]
fn recv_loop_still_replies_when_not_all_interfaces_excluded() {
    let mut listener = Listener::new("b".repeat(64));
    let src = IpAddr::V4(Ipv4Addr::new(127, 0, 0, 1));
    match listener.hear(&encode(&ann()), src, at(0), true) {
        Heard::Seen { reply, event } => {
            assert!(reply);
            assert_eq!(
                event,
                DiscoveryEvent::Seen {
                    fingerprint: "a".repeat(64),
                    nickname: "alice".to_string(),
                    addrs: vec![src],
                    port: 24917,
                    protocol: Protocol::Native,
                }
            );
        }
        Heard::Nothing => panic!(),
    }
    assert!(decode(&own_datagram(&"b".repeat(64), "self", 1)).is_some());
}

#[test]
fn answers_to_one_address_are_limited() {
    let mut listener = Listener::new("b".repeat(64));
    let src = |i: u8| IpAddr::V4(Ipv4Addr::new(10, 0, 0, i));
    let mut replies = |ip: IpAddr, nanos: u64| {
        matches!(
            listener.hear(&encode(&ann()), ip, Instant { nanos }, true),
            Heard::Seen { reply: true, .. }
        )
    };
    assert!(replies(src(1), 0));
    assert!(!replies(src(1), REPLY_RATE_LIMIT - 1));
    assert!(replies(src(2), REPLY_RATE_LIMIT - 1));
    assert!(replies(src(1), REPLY_RATE_LIMIT));
}

#[test]
fn own_and_broken_announcements_are_passed_over() {
    let mut listener = Listener::new("a".repeat(64));
    let src = IpAddr::V4(Ipv4Addr::new(10, 0, 0, 1));
    assert_eq!(listener.hear(&encode(&ann()), src, at(0), true), Heard::Nothing);
    assert_eq!(listener.hear(b"garbage", src, at(0), true), Heard::Nothing);
}

#[test]
fn sleep_and_watch_ifaces_retries_skipped_resend_before_window_boundary() {
    let mut s = SendLoop::start(at(10_000));
    s.remaining = 3_000 * MILLI;
    s.last_send = at(9_700);
    let mut now = 10_000;
    let mut sent_at = None;
    let mut changed = true;
    while s.remaining > 0 {
        let round = s.look(false, changed, at(now)).unwrap();
        assert_eq!(round.sync, changed);
        changed = false;
        if round.send && sent_at.is_none() {
            sent_at = Some(now);
            s.sent(at(now));
        }
        now += round.sleep / MILLI;
    }
    assert_eq!(sent_at, Some(10_800));
    assert_eq!(now, 13_000);
}

#[test]
fn resync_and_maybe_send_syncs_multicast_even_without_a_watch_change() {
    let mut s = SendLoop::start(at(10_000));
    s.remaining = 0;
    let round = s.look(false, false, at(20_000)).unwrap();
    assert!(round.sync && round.send);
    let mut joined = vec![Ipv4Addr::new(203, 0, 113, 5)];
    sync_multicast(&mut joined, &[], &[]);
    assert!(joined.is_empty());
}

#[test]
fn a_wait_is_cut_short_by_stopping() {
    let mut s = SendLoop::start(at(10_000));
    assert_eq!(s.remaining, 2_000 * MILLI);
    assert_eq!(s.look(true, false, at(10_000)), None);
    let round = s.look(false, false, at(10_000)).unwrap();
    assert_eq!((round.send, round.sleep), (false, SLEEP_STEP));
}

#[test]
fn a_poke_goes_to_the_port_for_announcements() {
    let ip = IpAddr::V4(Ipv4Addr::new(10, 0, 0, 1));
    assert_eq!(poke_target(ip), (ip, 24916));
    assert_eq!(AnnounceError::Io("x".to_string()).to_text(), "io: x");
}

// ---------------------------------------------------------------------------
// Multicast DNS
// ---------------------------------------------------------------------------

#[test]
fn exclusion_diff_first_submission_excludes_all() {
    let (newly_excluded, re_enabled) =
        exclusion_diff(&[], &["eth0".to_string(), "wlan0".to_string()]);
    assert_eq!(
        newly_excluded,
        vec!["eth0".to_string(), "wlan0".to_string()]
    );
    assert!(re_enabled.is_empty());
}

#[test]
fn exclusion_diff_no_change_is_a_noop() {
    let prev = vec!["eth0".to_string()];
    let (newly_excluded, re_enabled) = exclusion_diff(&prev, &prev.clone());
    assert!(newly_excluded.is_empty());
    assert!(re_enabled.is_empty());
}

#[test]
fn exclusion_diff_detects_added_and_removed_names() {
    let prev = vec!["eth0".to_string(), "wlan0".to_string()];
    let next = vec!["wlan0".to_string(), "utun3".to_string()];
    let (newly_excluded, re_enabled) = exclusion_diff(&prev, &next);
    assert_eq!(newly_excluded, vec!["utun3".to_string()]);
    assert_eq!(re_enabled, vec!["eth0".to_string()]);
}

#[test]
fn exclusion_diff_empty_to_empty_is_a_noop() {
    let (newly_excluded, re_enabled) = exclusion_diff(&[], &[]);
    assert!(newly_excluded.is_empty());
    assert!(re_enabled.is_empty());
}

#[test]
fn exclusion_diff_clearing_the_list_re_enables_everything() {
    let prev = vec!["eth0".to_string(), "wlan0".to_string()];
    let (newly_excluded, re_enabled) = exclusion_diff(&prev, &[]);
    assert!(newly_excluded.is_empty());
    assert_eq!(re_enabled, vec!["eth0".to_string(), "wlan0".to_string()]);
}

#[test]
fn set_disabled_interfaces_is_idempotent_and_tracks_applied_set() {
    let mut d = Discovery::start(&"a".repeat(64), "n", None, 0).unwrap();
    assert!(d.applied_disabled().is_empty());
    let want = vec!["not-a-real-iface".to_string()];
    assert!(d.set_disabled_interfaces(&want));
    assert_eq!(d.applied_disabled(), want);
    assert!(!d.set_disabled_interfaces(&want));
    assert!(d.set_disabled_interfaces(&[]));
    assert!(d.applied_disabled().is_empty());
}

#[test]
fn build_service_info_embeds_nickname_in_txt() {
    let info = build_service_info(
        "abcdef0123456789",
        "abcdef0123456789.local.",
        &"a".repeat(64),
        "新昵称",
        None,
        4600,
    );
    assert_eq!(info.property("nick"), Some("新昵称".to_string()));
}

#[test]
fn build_service_info_embeds_group_in_txt() {
    let info = build_service_info(
        "abcdef0123456789",
        "abcdef0123456789.local.",
        &"a".repeat(64),
        "昵称",
        Some(&"研发部".to_string()),
        4600,
    );
    assert_eq!(info.property("group"), Some("研发部".to_string()));
    let info2 = build_service_info(
        "abcdef0123456789",
        "abcdef0123456789.local.",
        &"a".repeat(64),
        "昵称",
        None,
        4600,
    );
    assert_eq!(info2.property("group"), Some("".to_string()));
    assert_eq!(info2.property("none"), None);
}

#[test]
fn a_record_follows_nickname_and_group() {
    let mut d = Discovery::start(&"ab".repeat(32), "old", None, 4600).unwrap();
    d.set_nickname("new");
    d.set_group(Some("g".to_string()));
    let r = d.record();
    assert_eq!(r.instance, "ab".repeat(8));
    assert_eq!(r.host, format!("{}.local.", "ab".repeat(8)));
    assert_eq!(r.port, 4600);
    assert_eq!(r.property("nick"), Some("new".to_string()));
    assert_eq!(r.property("group"), Some("g".to_string()));
    assert_eq!(r.property("fp"), Some("ab".repeat(32)));
    assert!(Discovery::start("short", "n", None, 0).is_err());
    assert_eq!(ShortFingerprint.to_text(), "fingerprint 短于 16 字符");
}

#[test]
fn names_are_hidden_once_each_and_in_order() {
    let mut d = Discovery::start(&"a".repeat(64), "n", None, 0).unwrap();
    let twice = vec!["b".to_string(), "a".to_string(), "b".to_string()];
    let plan = d.plan_disabled(&twice);
    assert_eq!(plan.desired, vec!["a".to_string(), "b".to_string()]);
    assert!(!plan.is_empty());
    assert!(d.set_disabled_interfaces(&twice));
    assert!(!d.set_disabled_interfaces(&plan.desired));
}

#[test]
fn records_of_others_come_and_go() {
    let mut b = Browser::new("me".to_string());
    let record = |fp: Option<&str>, nick: Option<&str>, group: Option<&str>| Resolved {
        fullname: "x._bigpaw._tcp.local.".to_string(),
        fp: fp.map(|s| s.to_string()),
        nick: nick.map(|s| s.to_string()),
        group: group.map(|s| s.to_string()),
        addrs: vec![],
        port: 9,
    };
    assert!(b.resolved(record(None, None, None)).is_none());
    assert!(b.resolved(record(Some("me"), None, None)).is_none());
    assert!(b.removed("x._bigpaw._tcp.local.").is_none());
    let (event, group) = b.resolved(record(Some("you"), None, Some(""))).unwrap();
    assert_eq!(group, None);
    match event {
        DiscoveryEvent::Seen { fingerprint, nickname, port, .. } => {
            assert_eq!((fingerprint.as_str(), nickname.as_str(), port), ("you", "?", 9));
        }
        other => panic!("{other:?}"),
    }
    let (_, group) = b.resolved(record(Some("you"), Some("n"), Some("g"))).unwrap();
    assert_eq!(group, Some("g".to_string()));
    assert_eq!(
        b.removed("x._bigpaw._tcp.local."),
        Some(DiscoveryEvent::Lost { fingerprint: "you".to_string() })
    );
    assert!(b.removed("x._bigpaw._tcp.local.").is_none());
}
