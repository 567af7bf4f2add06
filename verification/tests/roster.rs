use bigpaw::addr::{IpAddr, Ipv4Addr};
use bigpaw::roster::{DiscoveryEvent, Peer, PeerState, Protocol, Roster};

const SELF_FP: &str = "aaaa";

fn ip(last: u8) -> IpAddr {
    IpAddr::V4(Ipv4Addr::new(192, 168, 1, last))
}

fn seen(fp: &str, nick: &str) -> DiscoveryEvent {
    DiscoveryEvent::Seen {
        fingerprint: fp.to_string(),
        nickname: nick.to_string(),
        addrs: vec![ip(5)],
        port: 0,
        protocol: Protocol::Native,
    }
}

fn seen_ipmsg(fp: &str, nick: &str) -> DiscoveryEvent {
    DiscoveryEvent::Seen {
        fingerprint: fp.to_string(),
        nickname: nick.to_string(),
        addrs: vec![ip(9)],
        port: 2425,
        protocol: Protocol::Ipmsg,
    }
}

#[test]
fn seen_adds_peer_and_reports_change() {
    let mut r = Roster::new(SELF_FP.to_string());
    assert!(r.apply(seen("bbbb", "bob")));
    let snap = r.snapshot();
    assert_eq!(snap.len(), 1);
    assert_eq!(snap[0].nickname, "bob");
    assert_eq!(snap[0].state, PeerState::Discovered);
}

#[test]
fn own_fingerprint_is_filtered() {
    let mut r = Roster::new(SELF_FP.to_string());
    assert!(!r.apply(seen(SELF_FP, "me")));
    assert!(r.snapshot().is_empty());
}

#[test]
fn duplicate_seen_reports_no_change() {
    let mut r = Roster::new(SELF_FP.to_string());
    assert!(r.apply(seen("bbbb", "bob")));
    assert!(!r.apply(seen("bbbb", "bob")));
    assert!(r.apply(seen("bbbb", "bob-renamed")));
}

#[test]
fn lost_marks_offline_and_keeps_record() {
    let mut r = Roster::new(SELF_FP.to_string());
    r.apply(seen("bbbb", "bob"));
    assert!(r.apply(DiscoveryEvent::Lost {
        fingerprint: "bbbb".to_string()
    }));
    let snap = r.snapshot();
    assert_eq!(snap.len(), 1);
    assert_eq!(snap[0].state, PeerState::Offline);
    assert!(
        !r.apply(DiscoveryEvent::Lost {
            fingerprint: "bbbb".to_string()
        })
    );
    assert!(
        !r.apply(DiscoveryEvent::Lost {
            fingerprint: "cccc".to_string()
        })
    );
}

#[test]
fn snapshot_sorted_by_nickname_then_fingerprint() {
    let mut r = Roster::new(SELF_FP.to_string());
    r.apply(seen("cccc", "zoe"));
    r.apply(seen("bbbb", "amy"));
    let snap = r.snapshot();
    assert_eq!(snap[0].nickname, "amy");
    assert_eq!(snap[1].nickname, "zoe");
}

#[test]
fn reachable_upgrades_from_discovered() {
    let mut r = Roster::new("aaaa".to_string());
    r.apply(seen("bbbb", "bob"));
    assert_eq!(r.snapshot()[0].state, PeerState::Discovered);
    assert!(r.apply(DiscoveryEvent::Registered {
        fingerprint: "bbbb".to_string()
    }));
    assert_eq!(r.snapshot()[0].state, PeerState::Reachable);
}

#[test]
fn unreachable_marks_but_keeps_peer() {
    let mut r = Roster::new("aaaa".to_string());
    r.apply(seen("bbbb", "bob"));
    assert!(r.apply(DiscoveryEvent::Unreachable {
        fingerprint: "bbbb".to_string()
    }));
    assert_eq!(r.snapshot()[0].state, PeerState::Unreachable);
}

#[test]
fn seen_does_not_downgrade_reachable() {
    let mut r = Roster::new("aaaa".to_string());
    r.apply(seen("bbbb", "bob"));
    r.apply(DiscoveryEvent::Registered {
        fingerprint: "bbbb".to_string(),
    });
    r.apply(seen("bbbb", "bob"));
    assert_eq!(r.snapshot()[0].state, PeerState::Reachable);
}

#[test]
fn registered_for_unknown_peer_is_ignored() {
    let mut r = Roster::new("aaaa".to_string());
    assert!(!r.apply(DiscoveryEvent::Registered {
        fingerprint: "zzzz".to_string()
    }));
}

#[test]
fn unreachable_does_not_demote_reachable() {
    let mut r = Roster::new("aaaa".to_string());
    r.apply(seen("bbbb", "bob"));
    r.apply(DiscoveryEvent::Registered {
        fingerprint: "bbbb".to_string(),
    });
    assert!(!r.apply(DiscoveryEvent::Unreachable {
        fingerprint: "bbbb".to_string()
    }));
    assert_eq!(r.snapshot()[0].state, PeerState::Reachable);
}

#[test]
fn seen_with_ipmsg_protocol_records_ipmsg_peer() {
    let mut r = Roster::new(SELF_FP.to_string());
    assert!(r.apply(seen_ipmsg("ipmsg:192.168.1.9:HOST-B", "bob-feiq")));
    let snap = r.snapshot();
    assert_eq!(snap.len(), 1);
    assert_eq!(snap[0].protocol, Protocol::Ipmsg);
    assert_eq!(snap[0].port, 2425);
}

#[test]
fn offline_peer_seen_again_returns_to_discovered() {
    let mut r = Roster::new("aaaa".to_string());
    r.apply(seen("bbbb", "bob"));
    r.apply(DiscoveryEvent::Lost {
        fingerprint: "bbbb".to_string(),
    });
    assert_eq!(r.snapshot()[0].state, PeerState::Offline);
    assert!(r.apply(seen("bbbb", "bob")));
    assert_eq!(r.snapshot()[0].state, PeerState::Discovered);
}

#[test]
fn seed_offline_injects_known_peers_as_offline() {
    let mut r = Roster::new(SELF_FP.to_string());
    r.apply(seen("bbbb", "bob"));
    r.seed_offline(vec![
        Peer {
            fingerprint: "bbbb".to_string(),
            nickname: "bob-old".to_string(),
            addrs: vec![],
            port: 0,
            protocol: Protocol::Native,
            state: PeerState::Discovered,
        },
        Peer {
            fingerprint: "cccc".to_string(),
            nickname: "carol".to_string(),
            addrs: vec![ip(7)],
            port: 0,
            protocol: Protocol::Native,
            state: PeerState::Discovered,
        },
        Peer {
            fingerprint: SELF_FP.to_string(),
            nickname: "me".to_string(),
            addrs: vec![],
            port: 0,
            protocol: Protocol::Native,
            state: PeerState::Discovered,
        },
    ]);
    let snap = r.snapshot();
    assert_eq!(snap.len(), 2);
    let bob = snap.iter().find(|p| p.fingerprint == "bbbb").unwrap();
    assert_eq!(bob.state, PeerState::Discovered);
    assert_eq!(bob.nickname, "bob");
    let carol = snap.iter().find(|p| p.fingerprint == "cccc").unwrap();
    assert_eq!(carol.state, PeerState::Offline);
}

#[test]
fn lost_leaves_an_unreachable_peer_as_it_is() {
    let mut r = Roster::new(SELF_FP.to_string());
    r.apply(seen("bbbb", "bob"));
    r.apply(DiscoveryEvent::Unreachable { fingerprint: "bbbb".to_string() });
    assert!(!r.apply(DiscoveryEvent::Lost { fingerprint: "bbbb".to_string() }));
    assert_eq!(r.snapshot()[0].state, PeerState::Unreachable);
}

#[test]
fn addresses_in_another_order_are_no_change() {
    let seen_at = |addrs: Vec<IpAddr>| DiscoveryEvent::Seen {
        fingerprint: "bbbb".to_string(),
        nickname: "bob".to_string(),
        addrs,
        port: 0,
        protocol: Protocol::Native,
    };
    let mut r = Roster::new(SELF_FP.to_string());
    assert!(r.apply(seen_at(vec![ip(9), ip(5)])));
    assert!(!r.apply(seen_at(vec![ip(5), ip(9)])));
    assert_eq!(r.snapshot()[0].addrs, vec![ip(5), ip(9)]);
}
