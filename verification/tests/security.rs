//! Limits on connections, address blocks and sizes.

use rproxy::ip::IpAddr;
use rproxy::security::{
    normalize_peer, parse_size, Cidr, CidrList, ConnLimiter, Limits, Refusal, DEFAULT_MAX_CONNS,
    DEFAULT_MAX_CONNS_PER_IP,
};

fn v4(a: u8, b: u8, c: u8, d: u8) -> IpAddr {
    IpAddr::V4(u32::from_be_bytes([a, b, c, d]))
}

fn v6(groups: [u16; 8]) -> IpAddr {
    let mut n: u128 = 0;
    for g in groups {
        n = n * 65536 + g as u128;
    }
    IpAddr::V6(n)
}

/// The addresses that the tests write.
fn read(s: &str) -> Option<IpAddr> {
    match s {
        "2001:db8::1" => Some(v6([0x2001, 0xdb8, 0, 0, 0, 0, 0, 1])),
        "2001:db8::" => Some(v6([0x2001, 0xdb8, 0, 0, 0, 0, 0, 0])),
        "::" => Some(v6([0; 8])),
        "::1" => Some(v6([0, 0, 0, 0, 0, 0, 0, 1])),
        _ => {
            let parts: Vec<Option<u8>> = s.split('.').map(|p| p.parse().ok()).collect();
            match parts[..] {
                [Some(a), Some(b), Some(c), Some(d)] => Some(v4(a, b, c, d)),
                _ => None,
            }
        }
    }
}

fn show(ip: IpAddr) -> String {
    match ip {
        IpAddr::V4(n) => {
            let o = n.to_be_bytes();
            format!("{}.{}.{}.{}", o[0], o[1], o[2], o[3])
        }
        IpAddr::V6(n) if n == 0x2001_0db8_0000_0000_0000_0000_0000_0001 => "2001:db8::1".into(),
        IpAddr::V6(n) => format!("{n:x}"),
    }
}

fn parse(s: &str) -> Result<Cidr, String> {
    Cidr::parse(s, read(Cidr::address_text(s)))
}

fn text(c: &Cidr) -> String {
    c.text(&show(c.net))
}

#[test]
fn admits_up_to_the_global_cap_then_refuses() {
    let mut lim = ConnLimiter::new(2, 100);
    let a = v4(10, 0, 0, 1);
    let _g1 = lim.try_acquire(a).unwrap();
    let _g2 = lim.try_acquire(a).unwrap();
    assert_eq!(lim.try_acquire(a).unwrap_err(), Refusal::GlobalLimit);
    assert_eq!(lim.in_flight(), 2);
}

#[test]
fn admits_up_to_the_per_ip_cap_then_refuses() {
    let mut lim = ConnLimiter::new(100, 2);
    let a = v4(10, 0, 0, 1);
    let _g1 = lim.try_acquire(a).unwrap();
    let _g2 = lim.try_acquire(a).unwrap();
    assert_eq!(lim.try_acquire(a).unwrap_err(), Refusal::PerIpLimit);
}

#[test]
fn one_ip_at_its_cap_does_not_block_another_ip() {
    let mut lim = ConnLimiter::new(100, 1);
    let a = v4(10, 0, 0, 1);
    let b = v4(10, 0, 0, 2);
    let _ga = lim.try_acquire(a).unwrap();
    assert_eq!(lim.try_acquire(a).unwrap_err(), Refusal::PerIpLimit);
    let _gb = lim.try_acquire(b).unwrap();
    assert_eq!(lim.in_flight(), 2);
}

#[test]
fn dropping_a_guard_releases_both_counters() {
    let mut lim = ConnLimiter::new(1, 1);
    let a = v4(10, 0, 0, 1);
    let g = lim.try_acquire(a).unwrap();
    assert_eq!(lim.in_flight(), 1);
    assert_eq!(lim.in_flight_for(a), 1);
    assert!(lim.try_acquire(a).is_err());
    lim.release(g);
    assert_eq!(lim.in_flight(), 0);
    assert_eq!(lim.in_flight_for(a), 0);
    let _g = lim.try_acquire(a).unwrap();
}

#[test]
fn per_ip_refusal_rolls_back_the_global_claim() {
    let mut lim = ConnLimiter::new(10, 1);
    let a = v4(10, 0, 0, 1);
    let _g = lim.try_acquire(a).unwrap();
    for _ in 0..5 {
        assert_eq!(lim.try_acquire(a).unwrap_err(), Refusal::PerIpLimit);
    }
    assert_eq!(lim.in_flight(), 1, "global counter leaked on the refusal path");
}

#[test]
fn releasing_the_last_connection_removes_the_map_entry() {
    let mut lim = ConnLimiter::new(100, 4);
    for i in 0..50u8 {
        let a = v4(10, 0, 0, i);
        let g = lim.try_acquire(a).unwrap();
        lim.release(g);
    }
    assert_eq!(lim.in_flight(), 0);
    assert!(lim.per_ip.is_empty(), "map retained dead entries");
}

#[test]
fn nested_guards_for_one_ip_decrement_one_at_a_time() {
    let mut lim = ConnLimiter::new(100, 3);
    let a = v4(10, 0, 0, 1);
    let g1 = lim.try_acquire(a).unwrap();
    let g2 = lim.try_acquire(a).unwrap();
    assert_eq!(lim.in_flight_for(a), 2);
    lim.release(g2);
    assert_eq!(lim.in_flight_for(a), 1);
    lim.release(g1);
    assert_eq!(lim.in_flight_for(a), 0);
}

#[test]
fn parses_v4_blocks_and_masks_the_network() {
    let c = parse("10.1.2.3/8").unwrap();
    assert_eq!(text(&c), "10.0.0.0/8");
    assert!(c.contains(v4(10, 255, 255, 255)));
    assert!(!c.contains(v4(11, 0, 0, 1)));
}

#[test]
fn bare_address_is_a_host_route() {
    let c = parse("192.168.1.5").unwrap();
    assert_eq!(text(&c), "192.168.1.5/32");
    assert!(c.contains(v4(192, 168, 1, 5)));
    assert!(!c.contains(v4(192, 168, 1, 6)));

    let c6 = parse("2001:db8::1").unwrap();
    assert_eq!(text(&c6), "2001:db8::1/128");
}

#[test]
fn slash_zero_matches_everything_in_family() {
    let c = parse("0.0.0.0/0").unwrap();
    assert!(c.contains(v4(1, 2, 3, 4)));
    assert!(c.contains(v4(255, 255, 255, 255)));
    assert!(!c.contains(v6([0, 0, 0, 0, 0, 0, 0, 1])));

    let c6 = parse("::/0").unwrap();
    assert!(c6.contains(v6([0x2001, 0xdb8, 0, 0, 0, 0, 0, 5])));
    assert!(!c6.contains(v4(1, 2, 3, 4)));
}

#[test]
fn boundary_prefixes_are_exact() {
    let c = parse("10.0.0.0/32").unwrap();
    assert!(c.contains(v4(10, 0, 0, 0)));
    assert!(!c.contains(v4(10, 0, 0, 1)));

    let c6 = parse("::1/128").unwrap();
    assert!(c6.contains(v6([0, 0, 0, 0, 0, 0, 0, 1])));
    assert!(!c6.contains(v6([0, 0, 0, 0, 0, 0, 0, 2])));
}

#[test]
fn adjacent_ranges_do_not_match() {
    let c = parse("192.168.1.0/24").unwrap();
    assert!(c.contains(v4(192, 168, 1, 0)));
    assert!(c.contains(v4(192, 168, 1, 255)));
    assert!(!c.contains(v4(192, 168, 0, 255)));
    assert!(!c.contains(v4(192, 168, 2, 0)));
}

#[test]
fn non_byte_aligned_prefix_works() {
    let c = parse("172.16.0.0/12").unwrap();
    assert!(c.contains(v4(172, 16, 0, 1)));
    assert!(c.contains(v4(172, 31, 255, 254)));
    assert!(!c.contains(v4(172, 15, 255, 255)));
    assert!(!c.contains(v4(172, 32, 0, 0)));
}

#[test]
fn v6_prefix_matching() {
    let c = parse("2001:db8::/32").unwrap();
    assert!(c.contains(v6([0x2001, 0xdb8, 0xdead, 0xbeef, 0, 0, 0, 1])));
    assert!(!c.contains(v6([0x2001, 0xdb9, 0, 0, 0, 0, 0, 1])));
}

#[test]
fn rejects_malformed_cidrs() {
    assert!(parse("").is_err());
    assert!(parse("notanip").is_err());
    assert!(parse("10.0.0.0/x").is_err());
    assert!(parse("10.0.0.0/33").is_err());
    assert!(parse("::1/129").is_err());
}

#[test]
fn v6_accepts_prefixes_above_32() {
    assert!(parse("2001:db8::/64").is_ok());
    assert!(parse("2001:db8::/128").is_ok());
}

#[test]
fn empty_list_permits_everything() {
    let list = CidrList::default();
    assert!(list.is_empty());
    assert!(list.permits(v4(1, 2, 3, 4)));
}

#[test]
fn deny_list_blocks_only_listed_ranges() {
    let mut list = CidrList::default();
    list.push_deny(parse("10.0.0.0/8").unwrap());
    assert!(!list.permits(v4(10, 1, 1, 1)));
    assert!(list.permits(v4(11, 1, 1, 1)));
}

#[test]
fn non_empty_allow_list_is_default_deny() {
    let mut list = CidrList::default();
    list.push_allow(parse("192.168.0.0/16").unwrap());
    assert!(list.permits(v4(192, 168, 5, 5)));
    assert!(!list.permits(v4(8, 8, 8, 8)), "allow list must be default-deny");
}

#[test]
fn deny_beats_allow_on_overlap() {
    let mut list = CidrList::default();
    list.push_allow(parse("10.0.0.0/8").unwrap());
    list.push_deny(parse("10.1.2.3").unwrap());
    assert!(list.permits(v4(10, 9, 9, 9)));
    assert!(!list.permits(v4(10, 1, 2, 3)), "deny must take precedence");
}

fn describe(list: &CidrList) -> String {
    let shown = |v: &Vec<Cidr>| v.iter().map(|c| show(c.net)).collect::<Vec<_>>();
    list.describe(&shown(&list.allow), &shown(&list.deny))
}

#[test]
fn describe_reports_the_effective_policy() {
    let mut list = CidrList::default();
    assert_eq!(describe(&list), "none");
    list.push_deny(parse("10.0.0.0/8").unwrap());
    assert_eq!(describe(&list), "deny 10.0.0.0/8");
    list.push_allow(parse("192.168.0.0/16").unwrap());
    assert!(describe(&list).contains("default-deny"));
    assert_eq!(
        describe(&list),
        "deny 10.0.0.0/8 then allow 192.168.0.0/16 (default-deny)"
    );
}

#[test]
fn ipv4_mapped_peer_normalizes_to_v4() {
    let mapped = v6([0, 0, 0, 0, 0, 0xffff, 0xcb00, 0x7107]);
    assert_eq!(normalize_peer(mapped), v4(203, 0, 113, 7));

    let mut list = CidrList::default();
    list.push_deny(parse("203.0.113.0/24").unwrap());
    assert!(!list.permits(normalize_peer(mapped)), "v4-mapped peer escaped a v4 deny rule");
}

#[test]
fn genuine_v6_peer_is_left_alone() {
    let peer = v6([0x2001, 0xdb8, 0, 0, 0, 0, 0, 1]);
    assert_eq!(normalize_peer(peer), peer);
    assert_eq!(normalize_peer(v4(1, 2, 3, 4)), v4(1, 2, 3, 4));
}

#[test]
fn parses_sizes_with_suffixes() {
    assert_eq!(parse_size("0").unwrap(), 0);
    assert_eq!(parse_size("1024").unwrap(), 1024);
    assert_eq!(parse_size("512k").unwrap(), 512 * 1024);
    assert_eq!(parse_size("10m").unwrap(), 10 * 1024 * 1024);
    assert_eq!(parse_size("1g").unwrap(), 1024 * 1024 * 1024);
    assert_eq!(parse_size("10MB").unwrap(), 10 * 1024 * 1024);
    assert_eq!(parse_size("2Kb").unwrap(), 2048);
}

#[test]
fn rejects_bad_sizes() {
    assert!(parse_size("").is_err());
    assert!(parse_size("huge").is_err());
    assert!(parse_size("-1").is_err());
    assert!(parse_size("10x").is_err());
    assert!(parse_size("99999999999999999999g").is_err());
}

#[test]
fn default_limits_are_on_not_unlimited() {
    let l = Limits::default();
    assert!(l.max_body > 0 && l.max_body < u64::MAX);
    assert!(l.max_headers > 0 && l.max_headers < 10_000);
}

#[test]
fn refusals_are_told_apart() {
    assert_eq!(Refusal::GlobalLimit.text(), "global connection limit");
    assert_eq!(Refusal::PerIpLimit.text(), "per-IP connection limit");
    assert!(DEFAULT_MAX_CONNS_PER_IP < DEFAULT_MAX_CONNS);
}

#[test]
fn refusals_of_blocks_say_why() {
    assert_eq!(
        parse("10.0.0.0/33").unwrap_err(),
        "prefix /33 too long for IPv4 address in CIDR \"10.0.0.0/33\" (max /32)"
    );
    assert_eq!(parse("x/8").unwrap_err(), "bad IP address \"x\" in CIDR \"x/8\"");
    assert_eq!(parse("10.0.0.0/x").unwrap_err(), "bad prefix length \"x\" in CIDR \"10.0.0.0/x\"");
    assert_eq!(parse_size("20000000000g").unwrap_err(), "size \"20000000000g\" overflows");
}
