use bigpaw::addr::{IpAddr, Ipv4Addr};
use bigpaw::net_scope::{
    merge_ranges, prefix_mask, subnet_bounds, subtract_range, HostList, NetScope, ScopeEntry,
    ScopeParseError, MAX_ENTRIES,
};

fn ip(s: &str) -> Ipv4Addr {
    Ipv4Addr::parse(s).unwrap()
}

fn lines(v: &[&str]) -> Vec<String> {
    v.iter().map(|s| s.to_string()).collect()
}

fn scope(v: &[&str]) -> NetScope {
    NetScope::parse(&lines(v)).unwrap()
}

const MASK24: &str = "255.255.255.0";

/// The IPv6 address fe80::1.
const FE80_1: IpAddr = IpAddr::V6(0xfe80_0000_0000_0000_0000_0000_0000_0001);

#[test]
fn parse_single_ip() {
    assert_eq!(
        ScopeEntry::parse("192.168.1.10", 1).unwrap(),
        ScopeEntry::Single(ip("192.168.1.10"))
    );
}

#[test]
fn parse_cidr_zeroes_host_bits() {
    assert_eq!(
        ScopeEntry::parse("192.168.1.77/24", 1).unwrap(),
        ScopeEntry::Cidr {
            network: ip("192.168.1.0"),
            prefix: 24
        }
    );
}

#[test]
fn parse_range() {
    assert_eq!(
        ScopeEntry::parse("192.168.1.10-192.168.1.50", 1).unwrap(),
        ScopeEntry::Range {
            start: ip("192.168.1.10"),
            end: ip("192.168.1.50")
        }
    );
}

#[test]
fn parse_range_tolerates_spaces_around_dash() {
    assert_eq!(
        ScopeEntry::parse("192.168.1.10 - 192.168.1.50", 3).unwrap(),
        ScopeEntry::Range {
            start: ip("192.168.1.10"),
            end: ip("192.168.1.50")
        }
    );
}

#[test]
fn parse_errors_carry_line_numbers() {
    assert_eq!(
        ScopeEntry::parse("300.1.1.1", 2),
        Err(ScopeParseError::BadIp {
            line: 2,
            text: "300.1.1.1".into()
        })
    );
    assert_eq!(
        ScopeEntry::parse("10.0.0.0/33", 4),
        Err(ScopeParseError::BadPrefix {
            line: 4,
            text: "10.0.0.0/33".into()
        })
    );
    assert_eq!(
        ScopeEntry::parse("10.0.0.9-10.0.0.1", 5),
        Err(ScopeParseError::ReversedRange {
            line: 5,
            text: "10.0.0.9-10.0.0.1".into()
        })
    );
    assert_eq!(
        ScopeEntry::parse("hello", 6),
        Err(ScopeParseError::Malformed {
            line: 6,
            text: "hello".into()
        })
    );
    assert!(matches!(
        ScopeEntry::parse("fe80::1", 7),
        Err(ScopeParseError::BadIp { line: 7, .. })
    ));
}

#[test]
fn bounds_size_and_canonical() {
    let single = ScopeEntry::parse("10.0.0.5", 1).unwrap();
    assert_eq!(single.bounds(), (ip("10.0.0.5").bits, ip("10.0.0.5").bits));
    assert_eq!(single.size(), 1);
    assert_eq!(single.canonical(), "10.0.0.5");

    let cidr = ScopeEntry::parse("10.0.0.99/24", 1).unwrap();
    assert_eq!(cidr.bounds(), (ip("10.0.0.0").bits, ip("10.0.0.255").bits));
    assert_eq!(cidr.size(), 256);
    assert_eq!(cidr.canonical(), "10.0.0.0/24");

    let all = ScopeEntry::parse("1.2.3.4/0", 1).unwrap();
    assert_eq!(all.bounds(), (0, u32::MAX));
    assert_eq!(all.size(), 1 << 32);
    assert_eq!(all.canonical(), "0.0.0.0/0");

    let backwards = ScopeEntry::Range { start: ip("10.0.0.9"), end: ip("10.0.0.3") };
    assert_eq!(backwards.bounds(), (ip("10.0.0.9").bits, ip("10.0.0.3").bits));

    let host = ScopeEntry::parse("10.0.0.7/32", 1).unwrap();
    assert_eq!(host.size(), 1);

    let range = ScopeEntry::parse("10.0.0.1-10.0.0.3", 1).unwrap();
    assert_eq!(range.size(), 3);
    assert_eq!(range.canonical(), "10.0.0.1-10.0.0.3");
}

#[test]
fn empty_lines_are_unrestricted() {
    let s = NetScope::parse(&lines(&["", "   "])).unwrap();
    assert!(s.is_unrestricted());
    assert_eq!(s, NetScope::unrestricted());
    assert!(s.allows(IpAddr::V4(ip("8.8.8.8"))));
    assert!(s.allows(FE80_1));
}

#[test]
fn strict_parse_fails_on_any_bad_line() {
    let err = NetScope::parse(&lines(&["10.0.0.1", "bad", "10.0.0.2"])).unwrap_err();
    assert_eq!(
        err,
        ScopeParseError::Malformed {
            line: 2,
            text: "bad".into()
        }
    );
}

#[test]
fn strict_parse_rejects_too_many_entries() {
    let many: Vec<String> = (0..=MAX_ENTRIES).map(|i| format!("10.0.{}.1", i % 250)).collect();
    assert_eq!(
        NetScope::parse(&many),
        Err(ScopeParseError::TooMany(MAX_ENTRIES + 1))
    );
}

#[test]
fn lenient_parse_skips_bad_lines_and_reports_them() {
    let (s, errs) = NetScope::parse_lenient(&lines(&["10.0.0.1", "bad", "10.0.0.0/33"]));
    assert_eq!(s.entries().len(), 1);
    assert_eq!(errs.len(), 2);
    assert!(s.allows_v4(ip("10.0.0.1")));
    assert!(!s.allows_v4(ip("10.0.0.2")));
}

#[test]
fn lenient_parse_all_bad_is_unrestricted() {
    let (s, errs) = NetScope::parse_lenient(&lines(&["bad", "worse"]));
    assert!(s.is_unrestricted());
    assert_eq!(errs.len(), 2);
}

#[test]
fn allows_respects_all_three_formats_and_boundaries() {
    let s = scope(&["192.168.1.10", "10.0.0.0/24", "172.16.0.5-172.16.0.9"]);
    assert!(s.allows_v4(ip("192.168.1.10")));
    assert!(!s.allows_v4(ip("192.168.1.11")));
    assert!(s.allows_v4(ip("10.0.0.0")));
    assert!(s.allows_v4(ip("10.0.0.255")));
    assert!(!s.allows_v4(ip("10.0.1.0")));
    assert!(s.allows_v4(ip("172.16.0.5")));
    assert!(s.allows_v4(ip("172.16.0.9")));
    assert!(!s.allows_v4(ip("172.16.0.4")));
    assert!(!s.allows_v4(ip("172.16.0.10")));
}

#[test]
fn restricted_scope_rejects_ipv6() {
    let s = scope(&["10.0.0.0/8"]);
    assert!(!s.allows(FE80_1));
    assert!(s.allows(IpAddr::V4(ip("10.1.2.3"))));
}

#[test]
fn overlapping_and_adjacent_entries_merge() {
    let s = scope(&["10.0.0.0-10.0.0.127", "10.0.0.128/25"]);
    assert!(s.covers_subnet(ip("10.0.0.5"), ip(MASK24)));
    let s2 = scope(&["10.0.0.0/25", "10.0.0.100-10.0.0.255"]);
    assert!(s2.covers_subnet(ip("10.0.0.5"), ip(MASK24)));
}

#[test]
fn covers_subnet_semantics() {
    assert!(NetScope::unrestricted().covers_subnet(ip("10.0.0.5"), ip(MASK24)));
    let s = scope(&["10.0.0.0/24", "192.168.0.0/16"]);
    assert!(s.covers_subnet(ip("10.0.0.5"), ip(MASK24)));
    assert!(s.covers_subnet(ip("192.168.7.9"), ip(MASK24)));
    let half = scope(&["10.0.0.0/25"]);
    assert!(!half.covers_subnet(ip("10.0.0.5"), ip(MASK24)));
    assert!(!scope(&["10.0.0.5"]).covers_subnet(ip("10.0.0.5"), ip(MASK24)));
    assert!(scope(&["10.8.0.2"]).covers_subnet(ip("10.8.0.2"), ip("255.255.255.255")));
    assert!(!s.covers_subnet(ip("172.16.0.1"), ip(MASK24)));
}

#[test]
fn hosts_within_intersects_and_strips_network_broadcast_and_self() {
    let s = scope(&["10.0.0.0-10.0.0.5", "10.0.0.250-10.0.1.3"]);
    let hl = s.hosts_within(ip("10.0.0.7"), ip(MASK24), &[ip("10.0.0.7"), ip("10.0.0.3")], 1024);
    assert_eq!(
        hl.hosts,
        vec![ip("10.0.0.1"), ip("10.0.0.2"), ip("10.0.0.4"), ip("10.0.0.5"),
             ip("10.0.0.250"), ip("10.0.0.251"), ip("10.0.0.252"), ip("10.0.0.253"), ip("10.0.0.254")]
    );
    assert!(!hl.truncated);
    assert!(hl.skipped_entries.is_empty());
}

#[test]
fn hosts_within_no_intersection_is_empty() {
    let s = scope(&["172.16.0.0/16"]);
    let hl = s.hosts_within(ip("10.0.0.7"), ip(MASK24), &[], 1024);
    assert!(hl.hosts.is_empty());
    assert!(!hl.truncated);
}

#[test]
fn hosts_within_truncates_at_cap_in_ascending_order() {
    let s = scope(&["10.0.0.0/24"]);
    let hl = s.hosts_within(ip("10.0.0.7"), ip(MASK24), &[ip("10.0.0.7")], 5);
    assert_eq!(
        hl.hosts,
        vec![ip("10.0.0.1"), ip("10.0.0.2"), ip("10.0.0.3"), ip("10.0.0.4"), ip("10.0.0.5")]
    );
    assert!(hl.truncated);
}

#[test]
fn hosts_within_full_subnet_excludes_only_edges_and_self() {
    let s = scope(&["10.0.0.0/24"]);
    let hl = s.hosts_within(ip("10.0.0.7"), ip(MASK24), &[ip("10.0.0.7")], 1024);
    assert_eq!(hl.hosts.len(), 254 - 1);
    assert!(!hl.truncated);
}

#[test]
fn hosts_within_handles_31_and_32_prefixes() {
    let s = scope(&["10.0.0.0/24"]);
    let hl = s.hosts_within(ip("10.0.0.4"), ip("255.255.255.254"), &[ip("10.0.0.4")], 10);
    assert_eq!(hl.hosts, vec![ip("10.0.0.5")]);
    let hl32 = s.hosts_within(ip("10.0.0.4"), ip("255.255.255.255"), &[ip("10.0.0.4")], 10);
    assert!(hl32.hosts.is_empty());
}

#[test]
fn hosts_within_unrestricted_is_empty() {
    let hl = NetScope::unrestricted().hosts_within(ip("10.0.0.7"), ip(MASK24), &[], 10);
    assert!(hl.hosts.is_empty());
}

#[test]
fn hosts_outside_subtracts_local_subnets() {
    let s = scope(&["10.0.0.5", "10.0.0.6", "192.168.9.1-192.168.9.3", "172.16.0.0/30"]);
    let hl = s.hosts_outside(&[(ip("10.0.0.7"), ip(MASK24))], 1024);
    assert_eq!(
        hl.hosts,
        vec![ip("172.16.0.0"), ip("172.16.0.1"), ip("172.16.0.2"), ip("172.16.0.3"),
             ip("192.168.9.1"), ip("192.168.9.2"), ip("192.168.9.3")]
    );
    assert!(!hl.truncated);
    assert!(hl.skipped_entries.is_empty());
}

#[test]
fn hosts_outside_skips_oversized_entries_and_reports_them() {
    let s = scope(&["10.0.0.0/8", "192.168.9.1"]);
    let hl = s.hosts_outside(&[], 1024);
    assert_eq!(hl.hosts, vec![ip("192.168.9.1")]);
    assert_eq!(hl.skipped_entries, vec!["10.0.0.0/8".to_string()]);
}

#[test]
fn hosts_outside_truncates_total_at_cap() {
    let s = scope(&["192.168.9.4", "192.168.9.1-192.168.9.2", "192.168.9.3"]);
    let hl = s.hosts_outside(&[], 3);
    assert_eq!(hl.hosts, vec![ip("192.168.9.1"), ip("192.168.9.2"), ip("192.168.9.3")]);
    assert!(hl.truncated);
    assert!(hl.skipped_entries.is_empty());
}

#[test]
fn hosts_outside_unrestricted_is_empty() {
    assert!(NetScope::unrestricted().hosts_outside(&[], 10).hosts.is_empty());
}

#[test]
fn errors_are_told_with_line_and_text() {
    let told = |text: &str, line: usize| ScopeEntry::parse(text, line).unwrap_err().to_text();
    assert_eq!(told("300.1.1.1", 2), "第 2 行:无法解析 IPv4 地址 `300.1.1.1`");
    assert_eq!(told("10.0.0.0/33", 4), "第 4 行:CIDR 前缀长度非法 `10.0.0.0/33`(应为 0-32)");
    assert_eq!(told("10.0.0.9-10.0.0.1", 5), "第 5 行:区间起点大于终点 `10.0.0.9-10.0.0.1`");
    assert_eq!(told("hello", 6), "第 6 行:格式无法识别 `hello`");
    assert_eq!(ScopeParseError::TooMany(257).to_text(), "条目过多(257 > 256)");
}

#[test]
fn masks_bounds_and_ranges() {
    assert_eq!(prefix_mask(0), 0);
    assert_eq!(prefix_mask(24), 0xffff_ff00);
    assert_eq!(prefix_mask(32), 0xffff_ffff);
    assert_eq!(
        subnet_bounds(ip("10.0.0.7"), ip(MASK24)),
        (ip("10.0.0.0").bits, ip("10.0.0.255").bits)
    );
    assert_eq!(merge_ranges(vec![(5, 9), (1, 3), (4, 4), (20, 30)]), vec![(1, 9), (20, 30)]);
    assert_eq!(subtract_range((0, 9), (3, 5)), vec![(0, 2), (6, 9)]);
    assert_eq!(subtract_range((0, 9), (0, 9)), vec![]);
    assert_eq!(subtract_range((0, 9), (20, 30)), vec![(0, 9)]);
}

#[test]
fn an_empty_host_list_is_neither_cut_nor_partial() {
    let none = HostList::none();
    assert!(none.hosts.is_empty() && !none.truncated && none.skipped_entries.is_empty());
}

#[test]
fn written_entries_are_read_back() {
    for text in ["10.0.0.5", "10.0.0.99/24", "1.2.3.4/0", "10.0.0.7/32", "10.0.0.1 - 10.0.0.3"] {
        let e = ScopeEntry::parse(text, 1).unwrap();
        assert_eq!(ScopeEntry::parse(&e.canonical(), 1).unwrap(), e);
    }
}
