use cdn_ip_tester::data::{scan_subnets, Loadable, Subnet};
use cdn_ip_tester::inet::{Family, IpCidr, IpInet};

#[test]
fn parse_ip_cidr() {
    let subnets: Vec<Subnet> = Vec::from_str(
        r"192.168.1.1
        192.167.2.0/24
        192.167.3.3/24
        1.2.3.456/24
        1.2.3.4/24
        1.2.3.4a/24
        1.2.3.a5/12
        ",
    )
    .unwrap();
    println!("{subnets:?}");
    // assert_eq!(4, subnets);
}

fn v4(a: u8, b: u8, c: u8, d: u8, len: u8) -> IpCidr {
    IpCidr {
        family: Family::Ipv4,
        address: u32::from_be_bytes([a, b, c, d]) as u128,
        network_length: len,
    }
}

#[test]
fn ranges_are_found_in_free_text() {
    let subnets: Vec<Subnet> =
        Vec::from_str("first 10.0.0.0/8, then 192.168.4.0/22; last: 172.16.0.0/12.").unwrap();
    assert_eq!(subnets.len(), 3);
    assert_eq!(subnets[0].cidr, v4(10, 0, 0, 0, 8));
    assert_eq!(subnets[1].cidr, v4(192, 168, 4, 0, 22));
    assert_eq!(subnets[2].cidr, v4(172, 16, 0, 0, 12));
    assert!(subnets.iter().all(|s| !s.enable));
}

#[test]
fn a_range_that_occurs_twice_is_taken_once() {
    let subnets: Vec<Subnet> =
        Vec::from_str("10.0.0.0/8\n192.168.0.0/16\n10.0.0.0/8\n10.0.0.0/9\n").unwrap();
    assert_eq!(subnets.len(), 3);
    assert_eq!(subnets[0].cidr, v4(10, 0, 0, 0, 8));
    assert_eq!(subnets[1].cidr, v4(192, 168, 0, 0, 16));
    assert_eq!(subnets[2].cidr, v4(10, 0, 0, 0, 9));
}

#[test]
fn a_refused_piece_does_not_stop_the_reading() {
    let scan = scan_subnets("192.167.3.3/24 10.0.0.0/33 10.1.0.0/16").unwrap();
    assert_eq!(scan.subnets.len(), 1);
    assert_eq!(scan.subnets[0].cidr, v4(10, 1, 0, 0, 16));
    assert_eq!(
        scan.rejected,
        vec!["192.167.3.3/24".to_string(), "10.0.0.0/33".to_string()]
    );
}

#[test]
fn text_without_a_range_gives_no_range() {
    let subnets: Vec<Subnet> = Vec::from_str("192.168.1.1 and 1.2.3.4a/24 and nothing").unwrap();
    assert!(subnets.is_empty());
    let none: Vec<Subnet> = Vec::from_str("").unwrap();
    assert!(none.is_empty());
}

#[test]
fn a_sample_with_refused_pieces_gives_its_one_network() {
    let subnets: Vec<Subnet> = Vec::from_str(
        "192.168.1.1\n192.167.2.0/24\n192.167.3.3/24\n1.2.3.4/24\n1.2.3.4a/24\n1.2.3.a5/12\n",
    )
    .unwrap();
    assert_eq!(subnets.len(), 1);
    assert_eq!(subnets[0].cidr, v4(192, 167, 2, 0, 24));
}

#[test]
fn subnet_from_str_reads_a_network() {
    let subnet = Subnet::from_str("10.20.0.0/16").unwrap();
    assert_eq!(subnet.cidr, v4(10, 20, 0, 0, 16));
    assert!(!subnet.enable);
    assert!(Subnet::from_str("10.20.0.1/16").is_err());
    assert!(Subnet::from_str("10.20.0.0/40").is_err());
    assert!(Subnet::from_str("not a network").is_err());
}

#[test]
fn a_subnet_is_parsed_from_text() {
    let subnet: Subnet = "10.20.0.0/16".parse().unwrap();
    assert_eq!(subnet, Subnet::from_str("10.20.0.0/16").unwrap());
    assert!("10.20.0.1/16".parse::<Subnet>().is_err());
}

#[test]
fn subnet_from_str_reads_ipv6() {
    let subnet = Subnet::from_str("2001:db8::/32").unwrap();
    assert_eq!(subnet.cidr.family, Family::Ipv6);
    assert_eq!(subnet.cidr.address, 0x2001_0db8_0000_0000_0000_0000_0000_0000u128);
    assert_eq!(subnet.cidr.network_length, 32);
}

#[test]
fn subnet_len_is_two_to_the_host_bits() {
    assert_eq!(Subnet::from_str("10.0.0.0/24").unwrap().len(), 256);
    assert_eq!(Subnet::from_str("10.0.0.0/8").unwrap().len(), 1 << 24);
    assert_eq!(Subnet::from_str("10.0.0.1/32").unwrap().len(), 1);
    assert_eq!(Subnet::from_str("2001:db8::/120").unwrap().len(), 256);
    assert_eq!(Subnet::from_str("0.0.0.0/0").unwrap().len(), 1usize << 32);
}

#[test]
fn subnet_len_capped_takes_the_smaller() {
    let wide = Subnet::from_str("::/0").unwrap();
    assert_eq!(wide.len_capped(1000), 1000);
    assert_eq!(wide.len_capped(usize::MAX), usize::MAX);
    let narrow = Subnet::from_str("10.0.0.0/30").unwrap();
    assert_eq!(narrow.len_capped(1000), 4);
    assert_eq!(narrow.len_capped(3), 3);
    assert_eq!(narrow.len_capped(0), 0);
}

#[test]
fn get_ip_gives_the_nth_address() {
    let subnet = Subnet::from_str("192.168.1.0/24").unwrap();
    let first = subnet.get_ip(0).unwrap();
    assert_eq!(first, IpInet::from_str("192.168.1.0/24").unwrap());
    let tenth = subnet.get_ip(10).unwrap();
    assert_eq!(tenth.to_text(), "192.168.1.10/24");
    let last = subnet.get_ip(255).unwrap();
    assert_eq!(last.address_string(), "192.168.1.255");
    assert_eq!(last.network_length, 24);
}

#[test]
fn get_ip_gives_nothing_at_and_behind_the_end() {
    let subnet = Subnet::from_str("192.168.1.0/24").unwrap();
    assert_eq!(subnet.get_ip(256), None);
    assert_eq!(subnet.get_ip(257), None);
    assert_eq!(subnet.get_ip(usize::MAX), None);
    let host = Subnet::from_str("10.0.0.1/32").unwrap();
    assert!(host.get_ip(0).is_some());
    assert_eq!(host.get_ip(1), None);
}

#[test]
fn get_ip_works_alike_for_ipv6() {
    let subnet = Subnet::from_str("2001:db8::/126").unwrap();
    assert_eq!(subnet.get_ip(3).unwrap().to_text(), "2001:db8::3/126");
    assert_eq!(subnet.get_ip(4), None);
    let wide = Subnet::from_str("2001:db8::/32").unwrap();
    assert_eq!(
        wide.get_ip(usize::MAX).unwrap().address,
        0x2001_0db8_0000_0000_0000_0000_0000_0000u128 + usize::MAX as u128
    );
}

#[test]
fn network_of_a_host_drops_the_host_bits() {
    let inet = IpInet::from_str("10.1.2.3/8").unwrap();
    assert_eq!(inet.network(), v4(10, 0, 0, 0, 8));
    let host = IpInet::from_str("10.1.2.3/32").unwrap();
    assert_eq!(host.network(), v4(10, 1, 2, 3, 32));
    let all = IpInet::from_str("10.1.2.3/0").unwrap();
    assert_eq!(all.network(), v4(0, 0, 0, 0, 0));
    let six = IpInet::from_str("2001:db8::5/0").unwrap();
    assert_eq!(six.network().address, 0);
}

#[test]
fn inet_and_cidr_new_hold_to_their_rules() {
    assert!(IpInet::new(Family::Ipv4, 0xffff_ffff, 32).is_some());
    assert!(IpInet::new(Family::Ipv4, 0x1_0000_0000, 32).is_none());
    assert!(IpInet::new(Family::Ipv4, 1, 33).is_none());
    assert!(IpInet::new(Family::Ipv6, u128::MAX, 128).is_some());
    assert!(IpInet::new(Family::Ipv6, 1, 129).is_none());
    assert!(IpCidr::new(Family::Ipv4, 0x0a00_0000, 8).is_some());
    assert!(IpCidr::new(Family::Ipv4, 0x0a00_0001, 8).is_none());
    assert!(IpCidr::new(Family::Ipv6, 0, 0).is_some());
    assert!(IpCidr::new(Family::Ipv6, 1, 0).is_none());
    assert_eq!(Family::Ipv4.len(), 32);
    assert_eq!(Family::Ipv6.len(), 128);
}

#[test]
fn inet_text_always_names_the_prefix() {
    let host = IpInet::from_str("1.2.3.4/32").unwrap();
    assert_eq!(host.to_text(), "1.2.3.4/32");
    assert_eq!(host.address_string(), "1.2.3.4");
    let six = IpInet::from_str("2001:db8::1/128").unwrap();
    assert_eq!(six.to_text(), "2001:db8::1/128");
    assert_eq!(six.address_string(), "2001:db8::1");
    assert!(IpInet::from_str("1.2.3.4/33").is_err());
    assert_eq!(
        IpInet::from_str("1.2.3.4").unwrap(),
        IpInet { family: Family::Ipv4, address: 0x0102_0304, network_length: 32 }
    );
}

#[test]
fn pow2_of_small_exponents() {
    assert_eq!(cdn_ip_tester::inet::pow2_u128(0), 1);
    assert_eq!(cdn_ip_tester::inet::pow2_u128(10), 1024);
    assert_eq!(cdn_ip_tester::inet::pow2_u128(127), 1u128 << 127);
}
