use bigpaw::addr::{IpAddr, Ipv4Addr};
use bigpaw::net_ifaces::{
    broadcast_targets, build_entries, directed_broadcast, is_virtual_hint, multicast_diff,
    same_subnet, send_targets, sort_by_affinity, IfAddr, IfaceEntry, IfaceSnapshot, Interface,
    InterfaceRegistry,
};

fn v4(a: u8, b: u8, c: u8, d: u8) -> Ipv4Addr {
    Ipv4Addr::new(a, b, c, d)
}

fn v4_iface(
    name: &str,
    ip: Ipv4Addr,
    netmask: Ipv4Addr,
    broadcast: Option<Ipv4Addr>,
) -> Interface {
    Interface { name: name.to_string(), addr: IfAddr::V4 { ip, netmask, broadcast } }
}

fn loopback_iface() -> Interface {
    v4_iface("lo0", v4(127, 0, 0, 1), v4(255, 0, 0, 0), None)
}

fn v6_iface(name: &str) -> Interface {
    Interface { name: name.to_string(), addr: IfAddr::V6(1) }
}

fn entry(name: &str, ip: Ipv4Addr, netmask: Ipv4Addr, is_virtual_hint: bool) -> IfaceEntry {
    IfaceEntry {
        name: name.to_string(),
        ip,
        netmask,
        broadcast: directed_broadcast(ip, netmask),
        is_virtual_hint,
    }
}

#[test]
fn directed_broadcast_slash_24() {
    assert_eq!(
        directed_broadcast(v4(192, 168, 1, 42), v4(255, 255, 255, 0)),
        v4(192, 168, 1, 255)
    );
}

#[test]
fn directed_broadcast_slash_8() {
    assert_eq!(
        directed_broadcast(v4(10, 1, 2, 3), v4(255, 0, 0, 0)),
        v4(10, 255, 255, 255)
    );
}

#[test]
fn directed_broadcast_slash_32_equals_ip_itself() {
    assert_eq!(
        directed_broadcast(v4(172, 16, 5, 9), v4(255, 255, 255, 255)),
        v4(172, 16, 5, 9)
    );
}

#[test]
fn is_virtual_hint_matches_known_keywords_case_insensitive() {
    for name in ["utun0", "tun0", "bridge100", "vnic1", "vmnet8", "UTUN3"] {
        assert!(is_virtual_hint(name));
    }
}

#[test]
fn is_virtual_hint_does_not_match_physical_names() {
    for name in ["en0", "eth0", "wlan0", "Wi-Fi"] {
        assert!(!is_virtual_hint(name));
    }
}

#[test]
fn build_entries_filters_loopback() {
    let ifaces = vec![
        loopback_iface(),
        v4_iface("en0", v4(192, 168, 1, 10), v4(255, 255, 255, 0), None),
    ];
    let entries = build_entries(&ifaces, &[]);
    assert_eq!(entries.len(), 1);
    assert_eq!(entries[0].name, "en0");
}

#[test]
fn build_entries_filters_excluded_by_exact_name_match() {
    let ifaces = vec![
        v4_iface("en0", v4(192, 168, 1, 10), v4(255, 255, 255, 0), None),
        v4_iface("en1", v4(192, 168, 2, 10), v4(255, 255, 255, 0), None),
    ];
    let entries = build_entries(&ifaces, &["en0".to_string(), "en".to_string()]);
    assert_eq!(entries.len(), 1);
    assert_eq!(entries[0].name, "en1");
}

#[test]
fn build_entries_filters_ipv6_addresses() {
    let ifaces = vec![
        v6_iface("en0"),
        v4_iface("en1", v4(10, 0, 0, 5), v4(255, 0, 0, 0), None),
    ];
    let entries = build_entries(&ifaces, &[]);
    assert_eq!(entries.len(), 1);
    assert_eq!(entries[0].name, "en1");
}

#[test]
fn build_entries_prefers_system_broadcast_field() {
    let ifaces = vec![v4_iface(
        "en0",
        v4(192, 168, 1, 10),
        v4(255, 255, 255, 0),
        Some(v4(192, 168, 1, 200)),
    )];
    let entries = build_entries(&ifaces, &[]);
    assert_eq!(entries[0].broadcast, v4(192, 168, 1, 200));
}

#[test]
fn build_entries_computes_broadcast_when_system_field_missing() {
    let ifaces = vec![v4_iface(
        "en0",
        v4(192, 168, 1, 10),
        v4(255, 255, 255, 0),
        None,
    )];
    let entries = build_entries(&ifaces, &[]);
    assert_eq!(entries[0].broadcast, v4(192, 168, 1, 255));
}

#[test]
fn build_entries_marks_virtual_hint() {
    let ifaces = vec![
        v4_iface("utun3", v4(10, 8, 0, 2), v4(255, 255, 255, 0), None),
        v4_iface("en0", v4(192, 168, 1, 10), v4(255, 255, 255, 0), None),
    ];
    let entries = build_entries(&ifaces, &[]);
    let utun = entries.iter().find(|e| e.name == "utun3").unwrap();
    let en0 = entries.iter().find(|e| e.name == "en0").unwrap();
    assert!(utun.is_virtual_hint);
    assert!(!en0.is_virtual_hint);
}

#[test]
fn build_entries_sorted_by_name_then_ip_regardless_of_input_order() {
    let ifaces = vec![
        v4_iface("en1", v4(192, 168, 2, 10), v4(255, 255, 255, 0), None),
        v4_iface("en0", v4(192, 168, 1, 10), v4(255, 255, 255, 0), None),
    ];
    let entries = build_entries(&ifaces, &[]);
    let names: Vec<&str> = entries.iter().map(|e| e.name.as_str()).collect();
    assert_eq!(names, vec!["en0", "en1"]);
}

#[test]
fn same_subnet_true_when_addr_shares_network_with_an_entry() {
    let entries = vec![entry(
        "en0",
        v4(192, 168, 1, 10),
        v4(255, 255, 255, 0),
        false,
    )];
    assert!(same_subnet(IpAddr::V4(v4(192, 168, 1, 200)), &entries));
}

#[test]
fn same_subnet_false_when_no_entry_shares_network() {
    let entries = vec![entry(
        "en0",
        v4(192, 168, 1, 10),
        v4(255, 255, 255, 0),
        false,
    )];
    assert!(!same_subnet(IpAddr::V4(v4(10, 0, 0, 5)), &entries));
}

#[test]
fn same_subnet_ipv6_addr_never_panics_and_returns_false() {
    let entries = vec![entry(
        "en0",
        v4(192, 168, 1, 10),
        v4(255, 255, 255, 0),
        false,
    )];
    let v6 = IpAddr::V6(1);
    assert!(!same_subnet(v6, &entries));
}

#[test]
fn sort_by_affinity_puts_same_subnet_addrs_first_stably() {
    let entries = vec![entry(
        "en0",
        v4(192, 168, 1, 10),
        v4(255, 255, 255, 0),
        false,
    )];
    let mut addrs = vec![
        IpAddr::V4(v4(8, 8, 8, 8)),
        IpAddr::V4(v4(192, 168, 1, 50)),
        IpAddr::V4(v4(1, 1, 1, 1)),
        IpAddr::V4(v4(192, 168, 1, 99)),
    ];
    sort_by_affinity(&mut addrs, &entries);
    assert_eq!(
        addrs,
        vec![
            IpAddr::V4(v4(192, 168, 1, 50)),
            IpAddr::V4(v4(192, 168, 1, 99)),
            IpAddr::V4(v4(8, 8, 8, 8)),
            IpAddr::V4(v4(1, 1, 1, 1)),
        ]
    );
}

#[test]
fn multicast_diff_computes_join_and_leave() {
    let entries = vec![
        entry("en0", v4(192, 168, 1, 10), v4(255, 255, 255, 0), false),
        entry("en1", v4(192, 168, 2, 10), v4(255, 255, 255, 0), false),
    ];
    let joined = vec![v4(192, 168, 1, 10), v4(10, 0, 0, 1)];
    let (to_join, to_leave) = multicast_diff(&joined, &entries);
    assert_eq!(to_join, vec![v4(192, 168, 2, 10)]);
    assert_eq!(to_leave, vec![v4(10, 0, 0, 1)]);
}

#[test]
fn multicast_diff_empty_when_already_in_sync() {
    let entries = vec![entry(
        "en0",
        v4(192, 168, 1, 10),
        v4(255, 255, 255, 0),
        false,
    )];
    let joined = vec![v4(192, 168, 1, 10)];
    let (to_join, to_leave) = multicast_diff(&joined, &entries);
    assert!(to_join.is_empty());
    assert!(to_leave.is_empty());
}

#[test]
fn send_targets_dedups_same_subnet_and_prefers_physical_representative() {
    let entries = vec![
        entry("bridge0", v4(192, 168, 1, 20), v4(255, 255, 255, 0), true),
        entry("en0", v4(192, 168, 1, 10), v4(255, 255, 255, 0), false),
    ];
    let targets = send_targets(&entries);
    assert_eq!(targets.len(), 1);
    assert_eq!(targets[0].iface_ip, v4(192, 168, 1, 10));
}

#[test]
fn send_targets_nat_subnet_is_independent_target() {
    let entries = vec![
        entry("en0", v4(192, 168, 1, 10), v4(255, 255, 255, 0), false),
        entry("vmnet8", v4(172, 16, 5, 1), v4(255, 255, 255, 0), true),
    ];
    let targets = send_targets(&entries);
    assert_eq!(targets.len(), 2);
    let ips: Vec<Ipv4Addr> = targets.iter().map(|t| t.iface_ip).collect();
    assert!(ips.contains(&v4(192, 168, 1, 10)));
    assert!(ips.contains(&v4(172, 16, 5, 1)));
}

#[test]
fn send_targets_representative_choice_is_stable_regardless_of_input_order() {
    let a = entry("bridge0", v4(192, 168, 1, 20), v4(255, 255, 255, 0), true);
    let b = entry("en0", v4(192, 168, 1, 10), v4(255, 255, 255, 0), false);

    let forward = send_targets(&[a.clone(), b.clone()]);
    let backward = send_targets(&[b, a]);

    assert_eq!(forward, backward);
    assert_eq!(forward[0].iface_ip, v4(192, 168, 1, 10));
}

#[test]
fn send_targets_tie_break_by_name_when_both_physical_or_both_virtual() {
    let a = entry("en1", v4(192, 168, 1, 20), v4(255, 255, 255, 0), false);
    let b = entry("en0", v4(192, 168, 1, 10), v4(255, 255, 255, 0), false);
    let targets = send_targets(&[a, b]);
    assert_eq!(targets.len(), 1);
    assert_eq!(
        targets[0].iface_ip,
        v4(192, 168, 1, 10)
    );
}

#[test]
fn two_addresses_of_one_interface_give_the_same_target_in_any_order() {
    let a = entry("en0", v4(192, 168, 1, 6), v4(255, 255, 255, 0), false);
    let b = entry("en0", v4(192, 168, 1, 5), v4(255, 255, 255, 0), false);
    let far = entry("en0", v4(10, 0, 0, 9), v4(255, 255, 255, 0), false);
    let forward = [a.clone(), b.clone(), far.clone()];
    let backward = [far, b, a];
    assert_eq!(send_targets(&forward), send_targets(&backward));
    let ips: Vec<Ipv4Addr> = send_targets(&forward).iter().map(|t| t.iface_ip).collect();
    assert_eq!(ips, vec![v4(10, 0, 0, 9), v4(192, 168, 1, 5)]);
    assert_eq!(broadcast_targets(&forward), vec![v4(10, 0, 0, 255), v4(192, 168, 1, 255)]);
    assert_eq!(broadcast_targets(&backward), broadcast_targets(&forward));
}

#[test]
fn broadcast_targets_derived_from_send_targets_broadcast_field() {
    let entries = vec![
        entry("bridge0", v4(192, 168, 1, 20), v4(255, 255, 255, 0), true),
        entry("en0", v4(192, 168, 1, 10), v4(255, 255, 255, 0), false),
        entry("vmnet8", v4(172, 16, 5, 1), v4(255, 255, 255, 0), true),
    ];
    let broadcasts = broadcast_targets(&entries);
    assert_eq!(broadcasts.len(), 2);
    assert!(broadcasts.contains(&v4(192, 168, 1, 255)));
    assert!(broadcasts.contains(&v4(172, 16, 5, 255)));
}

#[test]
fn new_registry_initial_snapshot_generation_is_one() {
    let registry = InterfaceRegistry::new(vec![], &[]);
    assert_eq!(registry.snapshot().generation, 1);
}

#[test]
fn default_snapshot_generation_is_zero_meaning_not_yet_enumerated() {
    assert_eq!(IfaceSnapshot::default().generation, 0);
}

#[test]
fn apply_entries_idempotent_no_notify_when_data_unchanged() {
    let mut registry = InterfaceRegistry::new(vec![], &[]);
    let entries = vec![entry(
        "biguniquetest0",
        v4(203, 0, 113, 5),
        v4(255, 255, 255, 0),
        false,
    )];

    let first = registry.apply_entries(entries.clone());
    assert!(first.is_some());
    let gen_after_first = first.unwrap().generation;

    let second = registry.apply_entries(entries);
    assert!(second.is_none());
    assert_eq!(
        registry.snapshot().generation,
        gen_after_first
    );
}

#[test]
fn apply_entries_bumps_generation_when_data_changes() {
    let mut registry = InterfaceRegistry::new(vec![], &[]);
    let e1 = vec![entry(
        "biguniquetest0",
        v4(203, 0, 113, 5),
        v4(255, 255, 255, 0),
        false,
    )];
    let e2 = vec![entry(
        "biguniquetest0",
        v4(203, 0, 113, 6),
        v4(255, 255, 255, 0),
        false,
    )];

    let first = registry.apply_entries(e1).unwrap();
    let second = registry.apply_entries(e2).unwrap();
    assert_eq!(second.generation, first.generation + 1);
}

#[test]
fn set_excluded_returns_previous_list() {
    let mut registry = InterfaceRegistry::new(vec!["a".to_string()], &[]);
    let (old, _new_snapshot) = registry.set_excluded(vec!["b".to_string()], &[]);
    assert_eq!(old, vec!["a".to_string()]);
}

#[test]
fn refresh_tells_of_changes_only() {
    let en0 = v4_iface("en0", v4(192, 168, 1, 10), v4(255, 255, 255, 0), None);
    let en1 = v4_iface("en1", v4(192, 168, 2, 10), v4(255, 255, 255, 0), None);
    let mut registry = InterfaceRegistry::new(vec![], &[en0.clone()]);
    assert_eq!(registry.snapshot().entries.len(), 1);
    assert!(registry.refresh(&[en0.clone()]).is_none());
    let fresh = registry.refresh(&[en1.clone(), en0.clone()]).unwrap();
    assert_eq!(fresh.generation, 2);
    assert_eq!(fresh.entries.len(), 2);

    let (before, fresh) = registry.set_excluded(vec!["en0".to_string()], &[en1.clone(), en0.clone()]);
    assert!(before.is_empty());
    assert_eq!(fresh.unwrap().entries[0].name, "en1");

    let shown = registry.list_all(&[en1, en0, loopback_iface()]);
    assert_eq!(shown.len(), 2);
    assert_eq!((shown[0].name.as_str(), shown[0].excluded), ("en0", true));
    assert_eq!((shown[1].name.as_str(), shown[1].excluded), ("en1", false));
}
