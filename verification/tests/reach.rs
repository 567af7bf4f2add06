use bigpaw::addr::{IpAddr, Ipv4Addr, SocketAddr};
use bigpaw::discovery::announce::{host_sends, own_datagram, plan_sends, Heard, HistoryStore, Listener};
use bigpaw::hub::{Core, CoreConfig, CoreError, Route, Wake};
use bigpaw::moment::{Instant, SECOND};
use bigpaw::net_ifaces::{directed_broadcast, IfAddr, IfaceEntry, Interface};
use bigpaw::net_scope::NetScope;
use bigpaw::reach::{
    allowed_addrs, announce_plans, desired_mdns_disabled, far_hosts, let_through, plan_subnet,
    subnets, told_addrs, Plan, Subnet,
};
use bigpaw::roster::{DiscoveryEvent, Protocol};
use bigpaw::settings::Settings;
use bigpaw::storage::Storage;
use bigpaw::transport::manager::{TransportError, TransportManager};

fn v4(s: &str) -> Ipv4Addr {
    Ipv4Addr::parse(s).unwrap()
}

fn ip(s: &str) -> IpAddr {
    IpAddr::V4(v4(s))
}

fn lines(v: &[&str]) -> Vec<String> {
    v.iter().map(|s| s.to_string()).collect()
}

fn scope(v: &[&str]) -> NetScope {
    NetScope::parse(&lines(v)).unwrap()
}

const MASK24: &str = "255.255.255.0";

fn entry(name: &str, ip: &str) -> IfaceEntry {
    IfaceEntry {
        name: name.to_string(),
        ip: v4(ip),
        netmask: v4(MASK24),
        broadcast: directed_broadcast(v4(ip), v4(MASK24)),
        is_virtual_hint: false,
    }
}

fn subnet(ip: &str) -> Subnet {
    Subnet {
        iface_ip: v4(ip),
        netmask: v4(MASK24),
        broadcast: directed_broadcast(v4(ip), v4(MASK24)),
    }
}

fn seen(fp: &str, addrs: Vec<IpAddr>, protocol: Protocol) -> DiscoveryEvent {
    DiscoveryEvent::Seen {
        fingerprint: fp.to_string(),
        nickname: "bob".to_string(),
        addrs,
        port: 4600,
        protocol,
    }
}

fn at(seconds: u64) -> Instant {
    Instant { nanos: seconds * SECOND }
}

fn start(allowed: &[&str], history: Vec<IpAddr>) -> Core {
    let mut s = Settings::default();
    s.allowed_networks = lines(allowed);
    s.excluded_interfaces = lines(&["eth9"]);
    let ifaces = [
        Interface {
            name: "eth0".to_string(),
            addr: IfAddr::V4 { ip: v4("10.0.0.7"), netmask: v4(MASK24), broadcast: None },
        },
        Interface {
            name: "eth1".to_string(),
            addr: IfAddr::V4 { ip: v4("10.0.1.7"), netmask: v4(MASK24), broadcast: None },
        },
    ];
    Core::start(
        &CoreConfig { data_dir: "/data".to_string(), nickname: None },
        &s,
        "host",
        &"f0".repeat(32),
        Storage::open(vec![], vec![], vec![]),
        HistoryStore::load(history),
        vec![],
        &ifaces,
        true,
        at(100),
    )
}

// ---------------------------------------------------------------------------
// What is found
// ---------------------------------------------------------------------------

#[test]
fn addresses_outside_of_the_scope_are_left_out() {
    let s = scope(&["10.0.0.0/24"]);
    let given = vec![ip("10.0.1.5"), ip("10.0.0.5"), IpAddr::V6(1), ip("10.0.0.4")];
    assert_eq!(allowed_addrs(&s, &given), vec![ip("10.0.0.5"), ip("10.0.0.4")]);
    assert_eq!(allowed_addrs(&NetScope::unrestricted(), &given), given);
}

#[test]
fn a_peer_outside_of_the_scope_is_not_seen() {
    let s = scope(&["10.0.0.0/24"]);
    let ev = seen("a", vec![ip("10.0.1.5")], Protocol::Native);
    assert_eq!(let_through(&s, ev.clone()), None);
    assert_eq!(let_through(&NetScope::unrestricted(), ev.clone()), Some(ev));
    assert_eq!(let_through(&s, seen("a", vec![], Protocol::Native)), None);
    let empty = seen("a", vec![], Protocol::Native);
    assert_eq!(let_through(&NetScope::unrestricted(), empty.clone()), Some(empty));
    assert_eq!(
        let_through(&s, seen("a", vec![ip("10.0.1.5"), ip("10.0.0.5")], Protocol::Native)),
        Some(seen("a", vec![ip("10.0.0.5")], Protocol::Native))
    );
    let lost = DiscoveryEvent::Lost { fingerprint: "a".to_string() };
    assert_eq!(let_through(&s, lost.clone()), Some(lost));
}

#[test]
fn what_is_found_outside_leaves_no_trace() {
    let mut core = start(&["10.0.0.0/24"], vec![]);
    let noted = core.note(seen("b", vec![ip("10.0.1.5")], Protocol::Native), None, None, at(101), 1);
    assert!(noted.publish.is_none() && noted.probe.is_none());
    assert!(core.roster_snapshot().is_empty());
    assert!(core.storage().known_peers().is_empty());

    let ev = seen("b", vec![ip("10.0.1.5"), ip("10.0.0.5")], Protocol::Native);
    assert_eq!(
        core.within_scope(ev.clone()),
        Some(seen("b", vec![ip("10.0.0.5")], Protocol::Native))
    );
    let step = core.wake(Wake::Event { ev, addr: None, group: None }, false, at(102), 2);
    assert_eq!(step.publish.unwrap()[0].addrs, vec![ip("10.0.0.5")]);
    assert_eq!(step.probe.unwrap().addrs, vec![ip("10.0.0.5")]);
}

// ---------------------------------------------------------------------------
// Who is gone to
// ---------------------------------------------------------------------------

#[test]
fn routes_follow_the_scope_while_it_changes() {
    let mut core = start(&[], vec![]);
    let _ = core.note(
        seen("n", vec![ip("10.0.0.5"), ip("10.0.1.5")], Protocol::Native),
        None,
        None,
        at(101),
        1,
    );
    let _ = core.note(seen("ipmsg:k", vec![ip("10.0.1.6")], Protocol::Ipmsg), None, None, at(101), 1);
    assert_eq!(
        core.route("n"),
        Ok(Route::Native { addrs: vec![ip("10.0.0.5"), ip("10.0.1.5")], port: 4600 })
    );
    assert_eq!(core.route("ipmsg:k"), Ok(Route::Ipmsg { ip: ip("10.0.1.6"), port: 4600 }));

    let mut s = Settings::default();
    s.allowed_networks = lines(&["10.0.0.0/24", "bad line"]);
    core.apply_settings(&s, "host", &[]);
    assert!(core.allows(ip("10.0.0.9")) && !core.allows(ip("10.0.1.9")));
    assert_eq!(core.scope(), scope(&["10.0.0.0/24"]));
    assert_eq!(core.route("n"), Ok(Route::Native { addrs: vec![ip("10.0.0.5")], port: 4600 }));
    assert_eq!(core.route("ipmsg:k"), Err(CoreError::UnknownPeer));
}

#[test]
fn remembered_addresses_outside_of_the_scope_are_not_woken() {
    let history = vec![ip("10.0.1.5"), ip("10.0.0.5")];
    assert_eq!(start(&[], history.clone()).wake_ips(), history);
    let core = start(&["10.0.0.5"], history.clone());
    assert_eq!(core.wake_ips(), vec![ip("10.0.0.5")]);
    assert_eq!(core.history_ips(), history);
}

#[test]
fn the_transport_keeps_to_the_scope() {
    let mut m = TransportManager::start(1);
    let addrs = vec![ip("10.0.1.5"), ip("10.0.0.5")];
    assert!(m.accepts(ip("10.0.1.5")));
    assert_eq!(m.dial(&addrs).next(), Some(ip("10.0.1.5")));

    m.set_scope(scope(&["10.0.0.0/24"]));
    assert!(!m.accepts(ip("10.0.1.5")) && m.accepts(ip("10.0.0.5")));
    assert!(!m.accepts(IpAddr::V6(1)));
    let mut dialing = m.dial(&addrs);
    assert_eq!(dialing.next(), Some(ip("10.0.0.5")));
    dialing.failed("refused".to_string());
    assert_eq!(dialing.next(), None);
    assert_eq!(dialing.error(), TransportError::Io("refused".to_string()));
    let outside = m.dial(&vec![ip("10.0.1.5")]);
    assert_eq!(outside.next(), None);
    assert_eq!(outside.error(), TransportError::NoAddress);
}

// ---------------------------------------------------------------------------
// Who is told
// ---------------------------------------------------------------------------

#[test]
fn a_covered_subnet_is_told_by_broadcast() {
    let own = [v4("10.0.0.7")];
    let s = subnet("10.0.0.7");
    assert_eq!(plan_subnet(&NetScope::unrestricted(), s, &own), Plan::Broadcast);
    assert_eq!(plan_subnet(&scope(&["10.0.0.0/23"]), s, &own), Plan::Broadcast);
    assert_eq!(
        plan_subnet(&scope(&["10.0.0.0-10.0.0.99", "10.0.0.100-10.0.0.255"]), s, &own),
        Plan::Broadcast
    );
}

#[test]
fn in_any_other_subnet_hosts_are_told_one_by_one() {
    let own = [v4("10.0.0.7")];
    let s = subnet("10.0.0.7");
    assert_eq!(
        plan_subnet(&scope(&["10.0.0.6-10.0.0.9", "10.0.5.1"]), s, &own),
        Plan::Unicast(vec![v4("10.0.0.6"), v4("10.0.0.8"), v4("10.0.0.9")])
    );
    // The addresses at the ends of a subnet are no hosts.
    assert_eq!(
        plan_subnet(&scope(&["10.0.0.0-10.0.0.1"]), s, &own),
        Plan::Unicast(vec![v4("10.0.0.1")])
    );
    assert_eq!(plan_subnet(&scope(&["10.0.0.7"]), s, &own), Plan::Silent);
    assert_eq!(plan_subnet(&scope(&["203.0.113.7"]), s, &own), Plan::Silent);
}

#[test]
fn plans_cover_each_subnet_once_and_far_hosts_besides() {
    let entries = [entry("eth1", "10.0.1.7"), entry("eth0", "10.0.0.7"), entry("wlan0", "10.0.0.8")];
    assert_eq!(subnets(&entries), vec![subnet("10.0.0.7"), subnet("10.0.1.7")]);
    let s = scope(&["10.0.0.0/24", "10.0.1.2", "10.9.0.1", "10.8.0.0/16"]);
    assert_eq!(
        announce_plans(&s, &entries),
        vec![
            (subnet("10.0.0.7"), Plan::Broadcast),
            (subnet("10.0.1.7"), Plan::Unicast(vec![v4("10.0.1.2")])),
        ]
    );
    // A block that is too large is not gone through.
    assert_eq!(far_hosts(&s, &entries), vec![v4("10.9.0.1")]);
    assert_eq!(
        told_addrs(&s, &entries),
        vec![v4("10.0.0.255"), v4("10.0.1.2"), v4("10.9.0.1")]
    );
    assert!(far_hosts(&NetScope::unrestricted(), &entries).is_empty());
    assert_eq!(
        told_addrs(&NetScope::unrestricted(), &entries),
        vec![v4("10.0.0.255"), v4("10.0.1.255")]
    );
}

#[test]
fn datagrams_follow_the_plan() {
    let s = subnet("10.0.0.7");
    let to = |a: &str| SocketAddr { ip: v4(a), port: 9 };
    assert_eq!(
        plan_sends(s, &Plan::Broadcast, 9, true),
        vec![to("239.255.77.88"), to("10.0.0.255")]
    );
    assert_eq!(plan_sends(s, &Plan::Broadcast, 9, false), vec![to("10.0.0.255")]);
    let hosts = vec![v4("10.0.0.1"), v4("10.0.0.2")];
    assert_eq!(
        plan_sends(s, &Plan::Unicast(hosts.clone()), 9, true),
        vec![to("10.0.0.1"), to("10.0.0.2")]
    );
    assert!(plan_sends(s, &Plan::Silent, 9, true).is_empty());
    assert_eq!(host_sends(&hosts, 9), vec![to("10.0.0.1"), to("10.0.0.2")]);
}

#[test]
fn mdns_stays_off_what_is_not_covered() {
    let entries = [entry("eth0", "10.0.0.7"), entry("eth1", "10.0.1.7")];
    let excluded = lines(&["eth9"]);
    let s = scope(&["10.0.0.0/24", "10.0.1.2"]);
    assert_eq!(desired_mdns_disabled(&entries, &excluded, &s), lines(&["eth9", "eth1"]));
    assert_eq!(desired_mdns_disabled(&entries, &excluded, &NetScope::unrestricted()), excluded);

    assert_eq!(start(&["10.0.0.0/24"], vec![]).mdns_disabled(), lines(&["eth9", "eth1"]));
    assert_eq!(start(&[], vec![]).mdns_disabled(), excluded);
}

#[test]
fn ipmsg_goes_where_the_scope_lets_it() {
    let mut all = start(&[], vec![]).ipmsg_targets();
    all.sort_by_key(|a| a.bits);
    assert_eq!(all, vec![v4("10.0.0.255"), v4("10.0.1.255")]);
    assert_eq!(
        start(&["10.0.0.0/24", "10.0.1.2"], vec![]).ipmsg_targets(),
        vec![v4("10.0.0.255"), v4("10.0.1.2")]
    );
    assert!(start(&["10.0.0.7"], vec![]).ipmsg_targets().is_empty());
}

#[test]
fn scoped_instance_is_invisible_to_out_of_scope_peer() {
    let scoped = scope(&["203.0.113.7"]);
    let entries = [entry("eth0", "10.0.0.7")];
    // Nobody in the own subnet is told, ...
    assert_eq!(announce_plans(&scoped, &entries), vec![(subnet("10.0.0.7"), Plan::Silent)]);
    assert_eq!(far_hosts(&scoped, &entries), vec![v4("203.0.113.7")]);
    // ... and who announces from there is neither heard nor answered.
    let mut a = Listener::new("a".repeat(64));
    let datagram = own_datagram(&"b".repeat(64), "bob", 24918);
    let heard = a.hear_in_scope(&datagram, ip("10.0.0.9"), at(1), true, &scoped);
    assert!(matches!(heard, Heard::Nothing));
    let heard = a.hear_in_scope(&datagram, ip("203.0.113.7"), at(1), true, &scoped);
    assert!(matches!(heard, Heard::Seen { reply: true, .. }));
    let heard = a.hear_in_scope(&datagram, ip("10.0.0.9"), at(1), true, &NetScope::unrestricted());
    assert!(matches!(heard, Heard::Seen { reply: true, .. }));
}
