use bigpaw::addr::{IpAddr, Ipv4Addr, SocketAddr};
use bigpaw::discovery::announce::HistoryStore;
use bigpaw::hub::{
    addrs_to_record, apply_excluded_interfaces, default_nickname, effective_nickname,
    forward_ipmsg_event, hostname_no_local, nickname_on, persist_event, seed_peer,
    stale_fingerprints, strip_local, Answer, Core, CoreConfig, CoreError, IpmsgBcastGuard,
    IpmsgOffer, Route, SeenAt, Wake,
};
use bigpaw::ipmsg::discovery::{default_broadcast_targets, IpmsgEvent};
use bigpaw::ipmsg::filexfer::IpmsgFileEntry;
use bigpaw::moment::{Instant, SECOND};
use bigpaw::net_ifaces::{
    broadcast_targets, directed_broadcast, IfAddr, IfaceEntry, IfaceSnapshot, Interface,
    InterfaceRegistry,
};
use bigpaw::roster::{DiscoveryEvent, PeerState, Protocol};
use bigpaw::settings::Settings;
use bigpaw::storage::{HistoryItem, KnownPeer, Storage};
use bigpaw::table::Table;
use bigpaw::transport::manager::{MessageEvent, SentText, TransportEvent};

fn at(seconds: u64) -> Instant {
    Instant { nanos: seconds * SECOND }
}

const LOCALHOST: IpAddr = IpAddr::V4(Ipv4Addr { bits: 0x7f00_0001 });

fn fingerprint() -> String {
    "f0".repeat(32)
}

fn start_with(cfg_nick: Option<&str>, s: &Settings, known: Vec<KnownPeer>, ifaces: &[Interface]) -> Core {
    let cfg = CoreConfig {
        data_dir: "/data".to_string(),
        nickname: cfg_nick.map(|n| n.to_string()),
    };
    let mut storage = Storage::open(vec![], vec![], vec![]);
    let mut seeds = Vec::new();
    for k in known {
        let addr = k.last_addr.as_deref().and_then(Ipv4Addr::parse).map(IpAddr::V4);
        storage.upsert_peer(k.clone());
        seeds.push(seed_peer(k, addr));
    }
    Core::start(
        &cfg,
        s,
        "my-host.local",
        &fingerprint(),
        storage,
        HistoryStore::load(vec![]),
        seeds,
        ifaces,
        true,
        at(100),
    )
}

fn tester() -> Core {
    start_with(Some("tester"), &Settings::default(), vec![], &[])
}

fn seen(fp: &str, protocol: Protocol) -> DiscoveryEvent {
    DiscoveryEvent::Seen {
        fingerprint: fp.to_string(),
        nickname: "bob".to_string(),
        addrs: vec![LOCALHOST],
        port: 4600,
        protocol,
    }
}

// ---------------------------------------------------------------------------
// Calling back
// ---------------------------------------------------------------------------

#[test]
fn spawn_probe_reports_registered_and_records_history() {
    let mut core = tester();
    let noted = core.note(seen("bbbb", Protocol::Native), None, None, at(101), 1);
    let target = noted.probe.unwrap();
    assert_eq!((target.fingerprint.as_str(), target.port), ("bbbb", 4600));
    match core.probe_done(&target, true) {
        DiscoveryEvent::Registered { fingerprint } => assert_eq!(fingerprint, "bbbb"),
        other => panic!("{other:?}"),
    }
    assert!(core.history_ips().contains(&LOCALHOST));
    assert!(core.note(seen("bbbb", Protocol::Native), None, None, at(102), 2).probe.is_some());
}

#[test]
fn spawn_probe_reports_unreachable_for_dead_port() {
    let mut core = tester();
    let target = core.note(seen("bbbb", Protocol::Native), None, None, at(101), 1).probe.unwrap();
    match core.probe_done(&target, false) {
        DiscoveryEvent::Unreachable { fingerprint } => assert_eq!(fingerprint, "bbbb"),
        other => panic!("{other:?}"),
    }
    assert!(core.history_ips().is_empty());
    assert!(core.note(seen("bbbb", Protocol::Native), None, None, at(102), 2).probe.is_some());
}

#[test]
fn spawn_probe_skips_when_already_in_flight() {
    let mut core = tester();
    assert!(core.note(seen("bbbb", Protocol::Native), None, None, at(101), 1).probe.is_some());
    assert!(core.note(seen("bbbb", Protocol::Native), None, None, at(102), 2).probe.is_none());
}

// ---------------------------------------------------------------------------
// Starting
// ---------------------------------------------------------------------------

#[test]
fn start_creates_identity_and_empty_roster() {
    let core = tester();
    assert_eq!(core.fingerprint().len(), 64);
    assert_eq!(core.nickname(), "tester");
    assert!(core.roster_snapshot().is_empty());
}

#[test]
fn default_nickname_is_hostname_without_local_suffix() {
    let n = default_nickname();
    assert!(!n.is_empty());
    assert!(!n.ends_with(".local"));
    assert_eq!(n, hostname_no_local());
    assert_eq!(strip_local("mac.local"), "mac");
    assert_eq!(strip_local("mac"), "mac");
}

#[test]
fn start_seeds_offline_peers_from_storage() {
    let known = KnownPeer {
        fingerprint: "fpZ".to_string(),
        nickname: "zoe".to_string(),
        protocol: "native".to_string(),
        last_addr: Some("192.168.1.7".to_string()),
        last_seen_ms: 123,
        group: None,
    };
    let core = start_with(Some("tester"), &Settings::default(), vec![known], &[]);
    let snap = core.roster_snapshot();
    let zoe = snap.iter().find(|p| p.fingerprint == "fpZ").unwrap();
    assert_eq!(zoe.state, PeerState::Offline);
    assert_eq!(zoe.nickname, "zoe");
    assert_eq!(zoe.addrs, vec![IpAddr::V4(Ipv4Addr::new(192, 168, 1, 7))]);
}

#[test]
fn effective_nickname_falls_back_to_hostname_when_unset_or_blank() {
    let unset = Settings::default();
    assert_eq!(effective_nickname(&unset), default_nickname());

    let blank = Settings { nickname: Some("   ".to_string()), ..Default::default() };
    assert_eq!(effective_nickname(&blank), default_nickname());

    let set = Settings { nickname: Some("大脚猫".to_string()), ..Default::default() };
    assert_eq!(effective_nickname(&set), "大脚猫");
    assert_eq!(nickname_on(&unset, "host"), "host");
}

#[test]
fn apply_settings_hot_renames_nickname() {
    let mut core = start_with(Some("旧名"), &Settings::default(), vec![], &[]);
    assert_eq!(core.nickname(), "旧名");
    let named = Settings { nickname: Some("新名".to_string()), ..Default::default() };
    let effect = core.apply_settings(&named, "host", &[]);
    assert_eq!(effect.rename, Some("新名".to_string()));
    assert_eq!(core.nickname(), "新名");
    assert_eq!(core.apply_settings(&named, "host", &[]).rename, None);
    core.apply_settings(&Settings::default(), "host", &[]);
    assert_eq!(core.nickname(), "host");
}

#[test]
fn start_uses_nickname_from_settings_when_cfg_is_none() {
    let s = Settings { nickname: Some("设置里的名字".to_string()), ..Default::default() };
    assert_eq!(start_with(None, &s, vec![], &[]).nickname(), "设置里的名字");
    assert_eq!(start_with(None, &Settings::default(), vec![], &[]).nickname(), "my-host.local");
}

#[test]
fn start_skips_ipmsg_when_disabled_in_settings() {
    let s = Settings { ipmsg_enabled: false, ..Default::default() };
    assert!(!start_with(Some("tester"), &s, vec![], &[]).ipmsg_available());
    assert!(tester().ipmsg_available());
}

// ---------------------------------------------------------------------------
// Silence
// ---------------------------------------------------------------------------

fn times(rows: &[(&str, Instant)]) -> Table<SeenAt> {
    let mut t = Table::new();
    for (fp, at) in rows {
        t.insert(SeenAt { fingerprint: fp.to_string(), at: *at }, fp);
    }
    t
}

#[test]
fn stale_fingerprints_finds_only_expired_entries() {
    let now = at(1000);
    let last_seen = times(&[("fresh", now), ("stale", at(1000 - 120))]);
    let stale = stale_fingerprints(&last_seen, now, 60 * SECOND);
    assert_eq!(stale, vec!["stale".to_string()]);
}

#[test]
fn stale_fingerprints_empty_when_nothing_expired() {
    let now = at(1000);
    let last_seen = times(&[("fresh", now)]);
    assert!(stale_fingerprints(&last_seen, now, 60 * SECOND).is_empty());
}

#[test]
fn stale_fingerprints_boundary_is_strictly_greater_than_timeout() {
    let now = at(1000);
    let last_seen = times(&[("exactly-at-boundary", at(1000 - 60))]);
    assert!(stale_fingerprints(&last_seen, now, 60 * SECOND).is_empty());
}

#[test]
fn a_silent_peer_is_marked_by_a_scan() {
    let mut core = tester();
    core.note(seen("bbbb", Protocol::Native), None, None, at(101), 1);
    assert!(core.scan(at(150)).is_none());
    let listed = core.scan(at(101 + 61)).unwrap();
    assert_eq!(listed[0].state, PeerState::Offline);
    assert!(core.scan(at(300)).is_none());
}

#[test]
fn the_loop_over_events_takes_its_steps() {
    let mut core = tester();
    let ev = seen("bbbb", Protocol::Native);
    let step = core.wake(Wake::Event { ev, addr: None, group: None }, false, at(101), 1);
    assert_eq!(step.publish.unwrap().len(), 1);
    assert!(step.probe.is_some() && !step.stop);
    let step = core.wake(Wake::Timeout, true, at(102), 2);
    assert!(step.stop && step.publish.is_none() && !step.refresh);
    let step = core.wake(Wake::Disconnected, false, at(103), 3);
    assert!(step.stop);
    let step = core.wake(Wake::Timeout, false, at(100_000), 4);
    assert!(step.refresh && !step.stop);
    assert_eq!(step.publish.unwrap()[0].state, PeerState::Offline);
    assert!(!core.refresh_due(at(100_000)));
}

// ---------------------------------------------------------------------------
// Interfaces
// ---------------------------------------------------------------------------

fn iface_entry(name: &str, ip: Ipv4Addr, netmask: Ipv4Addr) -> IfaceEntry {
    IfaceEntry {
        name: name.to_string(),
        ip,
        netmask,
        broadcast: directed_broadcast(ip, netmask),
        is_virtual_hint: false,
    }
}

fn iface(name: &str, ip: Ipv4Addr) -> Interface {
    Interface {
        name: name.to_string(),
        addr: IfAddr::V4 { ip, netmask: Ipv4Addr::new(255, 255, 255, 0), broadcast: None },
    }
}

#[test]
fn addrs_to_record_keeps_all_when_entries_empty() {
    let addrs = vec![
        IpAddr::V4(Ipv4Addr::new(10, 0, 0, 5)),
        IpAddr::V4(Ipv4Addr::new(192, 168, 1, 9)),
    ];
    assert_eq!(addrs_to_record(&addrs, &[]), addrs);
}

#[test]
fn addrs_to_record_filters_to_same_subnet_when_entries_present() {
    let entries = vec![iface_entry(
        "en0",
        Ipv4Addr::new(192, 168, 1, 10),
        Ipv4Addr::new(255, 255, 255, 0),
    )];
    let addrs = vec![
        IpAddr::V4(Ipv4Addr::new(10, 0, 0, 5)),
        IpAddr::V4(Ipv4Addr::new(192, 168, 1, 9)),
    ];
    assert_eq!(
        addrs_to_record(&addrs, &entries),
        vec![IpAddr::V4(Ipv4Addr::new(192, 168, 1, 9))]
    );
}

#[test]
fn addrs_to_record_empty_result_when_no_addr_matches_any_entry() {
    let entries = vec![iface_entry(
        "en0",
        Ipv4Addr::new(192, 168, 1, 10),
        Ipv4Addr::new(255, 255, 255, 0),
    )];
    let addrs = vec![IpAddr::V4(Ipv4Addr::new(10, 0, 0, 5))];
    assert!(addrs_to_record(&addrs, &entries).is_empty());
}

#[test]
fn apply_excluded_interfaces_skips_mdns_callback_when_list_unchanged() {
    let mut registry = InterfaceRegistry::new(vec!["already-excluded".to_string()], &[]);
    let mut guard = IpmsgBcastGuard::new(default_broadcast_targets(), 0);
    let same = vec!["already-excluded".to_string()];
    assert_eq!(apply_excluded_interfaces(&mut registry, &mut guard, &same, &[]), None);
}

#[test]
fn apply_excluded_interfaces_notifies_mdns_for_nonexistent_iface_name_even_if_snapshot_unchanged() {
    let ifaces = [iface("en0", Ipv4Addr::new(192, 168, 1, 10))];
    let mut registry = InterfaceRegistry::new(vec![], &ifaces);
    let mut guard = IpmsgBcastGuard::new(default_broadcast_targets(), 0);
    let before = registry.snapshot();
    let fake_name = "definitely-not-a-real-iface-zzz".to_string();
    let told = apply_excluded_interfaces(&mut registry, &mut guard, &vec![fake_name], &ifaces);
    assert_eq!(told, Some(vec![]));
    assert_eq!(registry.snapshot().entries, before.entries);
    assert_eq!(guard.targets(), default_broadcast_targets());
}

#[test]
fn apply_excluded_interfaces_overwrites_ipmsg_bcast_when_snapshot_changes() {
    let ifaces = [
        iface("en0", Ipv4Addr::new(192, 168, 1, 10)),
        iface("en1", Ipv4Addr::new(10, 0, 0, 5)),
    ];
    let mut registry = InterfaceRegistry::new(vec![], &ifaces);
    let names: Vec<String> =
        registry.list_all(&ifaces).into_iter().map(|v| v.name).take(1).collect();
    let mut guard = IpmsgBcastGuard::new(default_broadcast_targets(), 0);
    let told = apply_excluded_interfaces(&mut registry, &mut guard, &names, &ifaces);
    assert_eq!(told, Some(vec![]));
    assert_eq!(guard.targets(), broadcast_targets(&registry.snapshot().entries));
    assert_eq!(guard.targets(), vec![Ipv4Addr::new(10, 0, 0, 255)]);
}

#[test]
fn ipmsg_bcast_guard_rejects_stale_generation_applied_after_newer_one() {
    let mut guard = IpmsgBcastGuard::new(default_broadcast_targets(), 0);

    let stale_entries = vec![iface_entry(
        "en0",
        Ipv4Addr::new(192, 168, 1, 10),
        Ipv4Addr::new(255, 255, 255, 0),
    )];
    let stale = IfaceSnapshot {
        generation: 1,
        entries: stale_entries,
    };

    let fresh_entries = vec![iface_entry(
        "en1",
        Ipv4Addr::new(10, 0, 0, 5),
        Ipv4Addr::new(255, 0, 0, 0),
    )];
    let fresh = IfaceSnapshot {
        generation: 2,
        entries: fresh_entries.clone(),
    };

    guard.apply_if_newer(&fresh);
    guard.apply_if_newer(&stale);

    assert_eq!(
        guard.targets(),
        broadcast_targets(&fresh_entries)
    );
}

#[test]
fn ipmsg_bcast_guard_applies_when_generation_arrives_in_order() {
    let mut guard = IpmsgBcastGuard::new(default_broadcast_targets(), 0);

    let e1 = vec![iface_entry(
        "en0",
        Ipv4Addr::new(192, 168, 1, 10),
        Ipv4Addr::new(255, 255, 255, 0),
    )];
    guard.apply_if_newer(&IfaceSnapshot {
        generation: 1,
        entries: e1,
    });

    let e2 = vec![iface_entry(
        "en1",
        Ipv4Addr::new(10, 0, 0, 5),
        Ipv4Addr::new(255, 0, 0, 0),
    )];
    guard.apply_if_newer(&IfaceSnapshot {
        generation: 2,
        entries: e2.clone(),
    });

    assert_eq!(guard.targets(), broadcast_targets(&e2));
}

#[test]
fn ipmsg_bcast_guard_same_generation_reapplied_is_a_harmless_noop() {
    let mut guard = IpmsgBcastGuard::new(default_broadcast_targets(), 0);
    let entries = vec![iface_entry(
        "en0",
        Ipv4Addr::new(192, 168, 1, 10),
        Ipv4Addr::new(255, 255, 255, 0),
    )];
    let snapshot = IfaceSnapshot {
        generation: 1,
        entries: entries.clone(),
    };

    guard.apply_if_newer(&snapshot);
    guard.apply_if_newer(&snapshot);

    assert_eq!(
        guard.targets(),
        broadcast_targets(&entries)
    );
}

#[test]
fn ipmsg_bcast_guard_concurrent_interleaved_generations_converge_to_the_max() {
    const ITERS: u64 = 1000;
    let entries_for_gen = |gen: u64| {
        vec![iface_entry(
            "en0",
            Ipv4Addr::new(10, 0, ((gen >> 8) & 0xff) as u8, (gen & 0xff) as u8),
            Ipv4Addr::new(255, 255, 255, 0),
        )]
    };
    let mut guard = IpmsgBcastGuard::new(default_broadcast_targets(), 0);
    for i in 1..=ITERS {
        for gen in [i * 2, i * 2 - 1] {
            guard.apply_if_newer(&IfaceSnapshot { generation: gen, entries: entries_for_gen(gen) });
        }
    }
    assert_eq!(guard.targets(), broadcast_targets(&entries_for_gen(ITERS * 2)));
}

#[test]
fn interfaces_are_followed() {
    let ifaces = [iface("en0", Ipv4Addr::new(192, 168, 1, 10))];
    let mut core = start_with(Some("tester"), &Settings::default(), vec![], &ifaces);
    assert_eq!(core.interfaces().generation, 1);
    assert_eq!(core.ipmsg_targets(), vec![Ipv4Addr::new(192, 168, 1, 255)]);
    assert!(core.refresh(&ifaces).is_none());
    assert_eq!(core.refresh(&[]).unwrap().generation, 2);
    assert!(core.ipmsg_targets().is_empty());
    assert_eq!(core.list_interfaces(&ifaces).len(), 1);
}

// ---------------------------------------------------------------------------
// The IP Messenger protocol
// ---------------------------------------------------------------------------

fn ipmsg_online(key: &str, is_bigpaw: bool) -> IpmsgEvent {
    IpmsgEvent::Online {
        key: key.to_string(),
        nick: "bob-feiq".to_string(),
        host: "HOST-B".to_string(),
        addr: SocketAddr { ip: Ipv4Addr::new(192, 168, 1, 9), port: 2425 },
        is_bigpaw,
        group: None,
    }
}

#[test]
fn forward_ipmsg_event_online_becomes_seen_with_ipmsg_protocol() {
    let mut offers = Table::new();
    let out = forward_ipmsg_event(&mut offers, ipmsg_online("192.168.1.9:HOST-B", false));
    match out.discovery.unwrap() {
        DiscoveryEvent::Seen { fingerprint, protocol, addrs, port, .. } => {
            assert_eq!(fingerprint, "ipmsg:192.168.1.9:HOST-B");
            assert_eq!(protocol, Protocol::Ipmsg);
            assert_eq!(addrs, vec![IpAddr::V4(Ipv4Addr::new(192, 168, 1, 9))]);
            assert_eq!(port, 2425);
        }
        other => panic!("{other:?}"),
    }
}

#[test]
fn forward_ipmsg_event_skips_bigpaw_peer_for_auto_upgrade() {
    let mut offers = Table::new();
    let out = forward_ipmsg_event(&mut offers, ipmsg_online("192.168.1.9:HOST-B", true));
    assert!(out.discovery.is_none());
    assert!(out.events.is_empty());
}

#[test]
fn forward_ipmsg_event_offline_becomes_lost() {
    let mut offers = Table::new();
    let gone = IpmsgEvent::Offline { key: "192.168.1.9:HOST-B".to_string() };
    match forward_ipmsg_event(&mut offers, gone).discovery.unwrap() {
        DiscoveryEvent::Lost { fingerprint } => {
            assert_eq!(fingerprint, "ipmsg:192.168.1.9:HOST-B")
        }
        other => panic!("{other:?}"),
    }
}

#[test]
fn forward_ipmsg_event_text_received_becomes_message() {
    let mut offers = Table::new();
    let text = IpmsgEvent::TextReceived {
        key: "192.168.1.9:HOST-B".to_string(),
        from: "bob".to_string(),
        body: "你好".to_string(),
    };
    let out = forward_ipmsg_event(&mut offers, text);
    match &out.events[0] {
        TransportEvent::Message(m) => {
            assert_eq!(m.peer_fp, "ipmsg:192.168.1.9:HOST-B");
            assert_eq!(m.body, "你好");
        }
        other => panic!("{other:?}"),
    }
}

fn offered(packet_no: u32, name: &str, size: u64, is_dir: bool) -> IpmsgEvent {
    IpmsgEvent::FileOffered {
        key: "192.168.1.9:HOST-B".to_string(),
        from: "bob".to_string(),
        packet_no,
        files: vec![IpmsgFileEntry { file_id: 0, name: name.to_string(), size, is_dir }],
    }
}

#[test]
fn forward_ipmsg_event_file_offered_registers_offer_and_emits_event() {
    let mut offers: Table<IpmsgOffer> = Table::new();
    let out = forward_ipmsg_event(&mut offers, offered(42, "report.pdf", 2048, false));
    let id = match &out.events[0] {
        TransportEvent::FileOffered { xfer_id, peer_fp, name, size, is_dir } => {
            assert_eq!(peer_fp, "ipmsg:192.168.1.9:HOST-B");
            assert_eq!(name, "report.pdf");
            assert_eq!(*size, 2048);
            assert!(!is_dir);
            xfer_id.clone()
        }
        other => panic!("{other:?}"),
    };
    let registered = offers.get(&id).unwrap();
    assert_eq!(registered.peer_fp, "ipmsg:192.168.1.9:HOST-B");
    assert_eq!(registered.packet_no, 42);
    assert_eq!(registered.file_id, 0);
    assert_eq!(registered.name, "report.pdf");
    assert_eq!(registered.size, 2048);
    assert!(!registered.is_dir);
}

#[test]
fn forward_ipmsg_event_file_offered_surfaces_dir_entries() {
    let mut offers: Table<IpmsgOffer> = Table::new();
    let out = forward_ipmsg_event(&mut offers, offered(1, "照片", 0, true));
    let id = match &out.events[0] {
        TransportEvent::FileOffered { xfer_id, name, is_dir, .. } => {
            assert_eq!(name, "照片");
            assert!(is_dir);
            xfer_id.clone()
        }
        other => panic!("{other:?}"),
    };
    assert!(offers.get(&id).unwrap().is_dir);
}

/// A peer of the IP Messenger protocol that offers a file or directory; the id
/// of the offer.
fn with_offer(core: &mut Core, is_dir: bool) -> String {
    core.note(
        DiscoveryEvent::Seen {
            fingerprint: "ipmsg:192.168.1.9:HOST-B".to_string(),
            nickname: "fake-feiq".to_string(),
            addrs: vec![LOCALHOST],
            port: 2425,
            protocol: Protocol::Ipmsg,
        },
        None,
        None,
        at(101),
        1,
    );
    let out = core.ipmsg_event(offered(7, "照片", 0, is_dir));
    match &out.events[0] {
        TransportEvent::FileOffered { xfer_id, .. } => xfer_id.clone(),
        other => panic!("{other:?}"),
    }
}

#[test]
fn respond_file_routes_dir_offer_to_request_dir_over_tcp() {
    let mut core = tester();
    let id = with_offer(&mut core, true);
    assert_eq!(
        core.respond_file(&id, true, "/dl", '/'),
        Ok(Answer::Fetch {
            ip: LOCALHOST,
            port: 2425,
            packet_no: 7,
            file_id: 0,
            size: 0,
            is_dir: true,
            save_path: "/dl/照片".to_string(),
        })
    );
    assert_eq!(core.respond_file(&id, true, "/dl", '/'), Ok(Answer::Native));
}

#[test]
fn a_declined_offer_is_not_fetched() {
    let mut core = tester();
    let id = with_offer(&mut core, false);
    assert_eq!(core.respond_file(&id, false, "/dl", '/'), Ok(Answer::Declined));
    assert_eq!(core.respond_file("native", true, "/dl", '/'), Ok(Answer::Native));
}

// ---------------------------------------------------------------------------
// What is kept
// ---------------------------------------------------------------------------

#[test]
fn pump_persists_incoming_message_before_forwarding() {
    let mut core = tester();
    let message = TransportEvent::Message(MessageEvent {
        peer_fp: "peerX".to_string(),
        id: "id1".to_string(),
        body: "你好".to_string(),
        ts_ms: 1234,
        sender_fp: None,
    });
    match core.pump(message, 5) {
        TransportEvent::Message(m) => assert_eq!(m.id, "id1"),
        other => panic!("{other:?}"),
    }
    assert_eq!(core.storage().history("peerX", None, 10).len(), 1);
    core.clear_history(Some("peerY"));
    assert_eq!(core.storage().history("peerX", None, 10).len(), 1);
    core.clear_history(None);
    assert!(core.storage().history("peerX", None, 10).is_empty());
}

#[test]
fn pump_records_file_offer_lifecycle() {
    let mut core = tester();
    core.pump(
        TransportEvent::FileOffered {
            xfer_id: "x1".to_string(),
            peer_fp: "peerX".to_string(),
            name: "a.zip".to_string(),
            size: 2048,
            is_dir: false,
        },
        1,
    );
    core.pump(
        TransportEvent::FileDone { xfer_id: "x1".to_string(), path: "/tmp/a.zip".to_string() },
        2,
    );
    let items = core.storage().history("peerX", None, 10);
    assert_eq!(items.len(), 1);
    match &items[0] {
        HistoryItem::File { status, path, .. } => {
            assert_eq!(status, "done");
            assert_eq!(path.as_deref(), Some("/tmp/a.zip"));
        }
        other => panic!("{other:?}"),
    }
}

#[test]
fn a_failed_transfer_is_kept_as_failed() {
    let mut s = Storage::open(vec![], vec![], vec![]);
    s.insert_transfer("x1", "peerX", "in", "a.zip", 1, false, "active", 1);
    let failed =
        TransportEvent::FileFailed { xfer_id: "x1".to_string(), reason: "gone".to_string() };
    persist_event(&mut s, &failed, 2);
    match &s.history("peerX", None, 10)[0] {
        HistoryItem::File { status, .. } => assert_eq!(status, "failed"),
        other => panic!("{other:?}"),
    }
}

#[test]
fn what_was_sent_is_kept() {
    let mut core = tester();
    core.text_sent("bbbb", "hi", &SentText { id: "m1".to_string(), ts_ms: 10 });
    core.file_offered("bbbb", "x1", "a.bin", 3, 20);
    let kinds: Vec<String> =
        core.storage().history("bbbb", None, 10).iter().map(|i| i.kind().to_string()).collect();
    assert_eq!(kinds, vec!["text".to_string(), "file".to_string()]);
}

#[test]
fn a_peer_is_reached_by_its_protocol() {
    let mut core = tester();
    assert_eq!(core.route("none"), Err(CoreError::UnknownPeer));
    core.note(seen("bbbb", Protocol::Native), None, None, at(101), 1);
    assert_eq!(core.route("bbbb"), Ok(Route::Native { addrs: vec![LOCALHOST], port: 4600 }));
    core.note(seen("ipmsg:k", Protocol::Ipmsg), None, None, at(101), 1);
    assert_eq!(core.route("ipmsg:k"), Ok(Route::Ipmsg { ip: LOCALHOST, port: 4600 }));
    assert_eq!(core.find_peer("bbbb").unwrap().nickname, "bob");

    let off = Settings { ipmsg_enabled: false, ..Default::default() };
    let mut core = start_with(None, &off, vec![], &[]);
    core.note(seen("ipmsg:k", Protocol::Ipmsg), None, None, at(101), 1);
    assert_eq!(core.route("ipmsg:k"), Err(CoreError::IpmsgUnavailable));
}

#[test]
fn an_announced_peer_is_known_the_next_time() {
    let mut core = tester();
    core.note(
        seen("bbbb", Protocol::Native),
        Some("127.0.0.1".to_string()),
        Some("g".to_string()),
        at(101),
        77,
    );
    let known = core.storage().known_peers();
    assert_eq!(known[0].last_addr.as_deref(), Some("127.0.0.1"));
    assert_eq!(known[0].last_seen_ms, 77);
    assert_eq!(known[0].group.as_deref(), Some("g"));
}
