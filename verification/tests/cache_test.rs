use cdn_ip_tester::cache::{RttResult, RttResultCache, RttResults};
use cdn_ip_tester::persist::parse_line;
use cdn_ip_tester::data::{Loadable, Savable, Subnet};
use cdn_ip_tester::error::{DeserializedError, ErrorKind};
use cdn_ip_tester::inet::IpInet;

fn ip(text: &str) -> IpInet {
    IpInet::from_str(text).unwrap()
}

fn texts(results: &RttResults) -> Vec<String> {
    results.ordered_keys().iter().map(|k| k.to_text()).collect()
}

fn sorted(results: &RttResults) -> bool {
    let keys = results.ordered_keys();
    keys.windows(2).all(|w| {
        let a = results.get(&w[0]).unwrap();
        let b = results.get(&w[1]).unwrap();
        (a.server_rtt, a.cdn_rtt) <= (b.server_rtt, b.cdn_rtt)
    })
}

#[test]
fn rtt_result_new_keeps_the_order_of_its_arguments() {
    let r = RttResult::new(50, 80);
    assert_eq!(r.server_rtt(), 50);
    assert_eq!(r.cdn_rtt(), 80);
    assert_eq!(r, RttResult { server_rtt: 50, cdn_rtt: 80 });
}

#[test]
fn records_compare_by_server_then_cdn() {
    assert!(RttResult::new(1, 9).precedes(&RttResult::new(2, 0)));
    assert!(RttResult::new(2, 3).precedes(&RttResult::new(2, 4)));
    assert!(!RttResult::new(2, 4).precedes(&RttResult::new(2, 4)));
    assert!(!RttResult::new(3, 0).precedes(&RttResult::new(2, 9)));
    assert!(RttResult::new(0, u64::MAX).precedes(&RttResult::new(1, 0)));
}

#[test]
fn commit_orders_by_record_and_relocates_a_new_record() {
    let a = ip("10.0.0.1/24");
    let b = ip("10.0.0.2/24");
    let mut results = RttResults::new();
    results.add_result(a, RttResult::new(50, 80));
    results.add_result(b, RttResult::new(10, 20));
    results.commit();
    assert_eq!(results.ordered_keys(), vec![b, a]);
    results.add_result(a, RttResult::new(5, 5));
    results.commit();
    assert_eq!(results.ordered_keys(), vec![a, b]);
    assert_eq!(results.get(&a), Some(RttResult::new(5, 5)));
    assert_eq!(results.len(), 2);
}

#[test]
fn the_order_is_untouched_until_commit() {
    let a = ip("10.0.0.1/24");
    let b = ip("10.0.0.2/24");
    let mut results = RttResults::new();
    results.add_result(a, RttResult::new(5, 5));
    assert!(results.ordered_keys().is_empty());
    assert_eq!(results.len(), 1);
    assert_eq!(results.get(&a), Some(RttResult::new(5, 5)));
    results.commit();
    results.add_result(b, RttResult::new(1, 1));
    assert_eq!(results.ordered_keys(), vec![a]);
    assert_eq!(results.len(), 2);
    results.commit();
    assert_eq!(results.ordered_keys(), vec![b, a]);
}

#[test]
fn the_latest_record_wins() {
    let a = ip("10.0.0.1/24");
    let mut results = RttResults::new();
    results.add_result(a, RttResult::new(5, 5));
    results.add_result(a, RttResult::new(7, 1));
    assert_eq!(results.get(&a), Some(RttResult::new(7, 1)));
    results.commit();
    assert_eq!(results.ordered_keys(), vec![a]);
    assert_eq!(results.len(), 1);
}

#[test]
fn commit_without_new_records_changes_nothing() {
    let mut results = RttResults::new();
    results.commit();
    assert!(results.ordered_keys().is_empty());
    for i in 0..20u64 {
        let key = ip(&format!("10.0.0.{}/24", i));
        results.add_result(key, RttResult::new(100 - i, i));
    }
    results.commit();
    let once = results.ordered_keys();
    results.commit();
    assert_eq!(results.ordered_keys(), once);
    results.commit();
    assert_eq!(results.ordered_keys(), once);
    assert_eq!(results.len(), 20);
}

#[test]
fn after_every_commit_the_order_is_sorted_and_complete() {
    let mut results = RttResults::new();
    let mut seed: u64 = 12345;
    for round in 0..30 {
        for _ in 0..7 {
            seed = seed.wrapping_mul(6364136223846793005).wrapping_add(1442695040888963407);
            let host = (seed >> 33) % 40;
            let server = (seed >> 20) % 5;
            let cdn = (seed >> 10) % 5;
            results.add_result(ip(&format!("10.0.1.{}/24", host)), RttResult::new(server, cdn));
        }
        results.commit();
        let keys = results.ordered_keys();
        assert_eq!(keys.len(), results.len(), "round {}", round);
        let mut unique = keys.clone();
        unique.sort_by_key(|k| k.address);
        unique.dedup();
        assert_eq!(unique.len(), keys.len());
        assert!(sorted(&results));
    }
}

#[test]
fn a_staged_address_goes_before_an_old_one_of_equal_record() {
    let a = ip("10.0.0.1/24");
    let b = ip("10.0.0.2/24");
    let c = ip("10.0.0.3/24");
    let mut results = RttResults::new();
    results.add_result(a, RttResult::new(5, 5));
    results.commit();
    results.add_result(c, RttResult::new(5, 5));
    results.add_result(b, RttResult::new(5, 5));
    results.commit();
    assert_eq!(results.ordered_keys(), vec![c, b, a]);
}

#[test]
fn staged_addresses_of_equal_record_stand_as_they_were_first_touched() {
    let mut results = RttResults::new();
    let mut expected = Vec::new();
    let mut seed: u64 = 7;
    for _ in 0..300 {
        seed = seed.wrapping_mul(6364136223846793005).wrapping_add(1442695040888963407);
        let key = ip(&format!("10.{}.{}.1/24", (seed >> 40) % 200, (seed >> 20) % 200));
        if !expected.contains(&key) {
            expected.push(key);
        }
        results.add_result(key, RttResult::new(4, 4));
    }
    results.commit();
    assert_eq!(results.ordered_keys(), expected);
}

#[test]
fn records_are_ordered_as_their_fields() {
    assert!(RttResult::new(1, 9) < RttResult::new(2, 0));
    assert!(RttResult::new(2, 3) < RttResult::new(2, 4));
    assert!(RttResult::new(2, 4) <= RttResult::new(2, 4));
    assert_eq!(RttResult::new(3, 0).max(RttResult::new(2, 9)), RttResult::new(3, 0));
}

#[test]
fn a_large_file_in_any_order_is_read() {
    let mut text = String::new();
    let n: u64 = 20000;
    for i in 0..n {
        let rtt = (i * 7919) % n;
        text.push_str(&format!(
            "ip: 10.{}.{}.{}/8, server_rtt: {}, cdn_rtt: {}\n",
            i / 65536,
            (i / 256) % 256,
            i % 256,
            rtt / 3,
            rtt % 3
        ));
    }
    let results = RttResults::from_str(&text).unwrap();
    assert_eq!(results.len(), n as usize);
    assert!(sorted(&results));
    let again = RttResults::from_str(&results.to_string().unwrap()).unwrap();
    assert_eq!(again.ordered_keys(), results.ordered_keys());
}

#[test]
fn a_moved_address_does_not_hold_back_the_old_ones() {
    let x = ip("10.0.0.1/24");
    let a = ip("10.0.0.2/24");
    let b = ip("10.0.0.3/24");
    let mut results = RttResults::new();
    results.add_result(x, RttResult::new(1, 1));
    results.add_result(a, RttResult::new(2, 2));
    results.commit();
    assert_eq!(results.ordered_keys(), vec![x, a]);
    results.add_result(b, RttResult::new(3, 3));
    results.add_result(x, RttResult::new(9, 9));
    results.commit();
    assert_eq!(results.ordered_keys(), vec![a, b, x]);
}

#[test]
fn the_same_address_under_two_prefixes_is_two_addresses() {
    let narrow = ip("10.0.0.1/24");
    let wide = ip("10.0.0.1/8");
    let six = ip("::a00:1/120");
    let mut results = RttResults::new();
    results.add_result(narrow, RttResult::new(3, 3));
    results.add_result(wide, RttResult::new(2, 2));
    results.add_result(six, RttResult::new(1, 1));
    results.commit();
    assert_eq!(results.len(), 3);
    assert_eq!(results.ordered_keys(), vec![six, wide, narrow]);
    assert_eq!(results.get(&ip("10.0.0.1/16")), None);
}

#[test]
fn get_of_an_ill_formed_address_is_nothing() {
    let results = RttResults::new();
    let bad = IpInet {
        family: cdn_ip_tester::inet::Family::Ipv4,
        address: u128::MAX,
        network_length: 99,
    };
    assert_eq!(results.get(&bad), None);
}

#[test]
fn to_string_writes_one_line_per_address_in_order() {
    let mut results = RttResults::new();
    results.add_result(ip("10.0.0.1/24"), RttResult::new(50, 80));
    results.add_result(ip("2001:db8::7/64"), RttResult::new(10, 20));
    results.add_result(ip("10.0.0.9/32"), RttResult::new(10, 21));
    results.commit();
    assert_eq!(
        results.to_string().unwrap(),
        "ip: 2001:db8::7/64, server_rtt: 10, cdn_rtt: 20\n\
         ip: 10.0.0.9/32, server_rtt: 10, cdn_rtt: 21\n\
         ip: 10.0.0.1/24, server_rtt: 50, cdn_rtt: 80\n"
    );
    assert_eq!(RttResults::new().to_string().unwrap(), "");
}

#[test]
fn a_saved_store_loads_as_it_was() {
    let mut results = RttResults::new();
    let mut seed: u64 = 99;
    for _ in 0..200 {
        seed = seed.wrapping_mul(6364136223846793005).wrapping_add(1442695040888963407);
        let host = (seed >> 33) % 250;
        let len = 8 + (seed >> 50) % 25;
        let key = ip(&format!("10.3.7.{}/{}", host, len));
        results.add_result(key, RttResult::new((seed >> 12) % 9, (seed >> 5) % 9));
    }
    results.add_result(ip("2001:db8::1/128"), RttResult::new(0, u64::MAX));
    results.add_result(ip("::/0"), RttResult::new(u64::MAX, 0));
    results.add_result(ip("255.255.255.255/32"), RttResult::new(3, 3));
    results.commit();
    let text = results.to_string().unwrap();
    let back = RttResults::from_str(&text).unwrap();
    assert_eq!(back.ordered_keys(), results.ordered_keys());
    assert_eq!(back.len(), results.len());
    for key in results.ordered_keys() {
        assert_eq!(back.get(&key), results.get(&key));
    }
    assert_eq!(back.to_string().unwrap(), text);
}

#[test]
fn from_str_passes_over_empty_lines_and_carriage_returns() {
    let text = "\r\nip: 10.0.0.2/24, server_rtt: 7, cdn_rtt: 8\r\n\n\nip: 10.0.0.1/24, server_\rrtt: 1, cdn_rtt: 2";
    let results = RttResults::from_str(text).unwrap();
    assert_eq!(texts(&results), vec!["10.0.0.1/24", "10.0.0.2/24"]);
    assert_eq!(results.get(&ip("10.0.0.2/24")), Some(RttResult::new(7, 8)));
}

#[test]
fn from_str_sorts_what_it_reads_and_keeps_the_last_record() {
    let text = "ip: 10.0.0.3/24, server_rtt: 9, cdn_rtt: 9\n\
                ip: 10.0.0.1/24, server_rtt: 4, cdn_rtt: 4\n\
                ip: 10.0.0.2/24, server_rtt: 4, cdn_rtt: 4\n\
                ip: 10.0.0.3/24, server_rtt: 1, cdn_rtt: 1\n";
    let results = RttResults::from_str(text).unwrap();
    assert_eq!(texts(&results), vec!["10.0.0.3/24", "10.0.0.1/24", "10.0.0.2/24"]);
    assert_eq!(results.len(), 3);
}

#[test]
fn from_string_list_reads_lines() {
    let lines = vec![
        "ip: 10.0.0.2/24, server_rtt: 7, cdn_rtt: 8".to_string(),
        "ip: 10/8, server_rtt: 1, cdn_rtt: 2".to_string(),
    ];
    let results = RttResults::from_string_list(&lines).unwrap();
    assert_eq!(texts(&results), vec!["10.0.0.0/8", "10.0.0.2/24"]);
    assert!(RttResults::from_string_list(&vec![String::new()]).is_err());
    assert_eq!(RttResults::from_string_list(&Vec::new()).unwrap().len(), 0);
}

#[test]
fn a_line_off_the_layout_rejects_the_file() {
    let text = "ip: 10.0.0.2/24, server_rtt: 7, cdn_rtt: 8\nip: 10.0.0.3/24 server_rtt: 7, cdn_rtt: 8\n";
    let err = RttResults::from_str(text).unwrap_err();
    match *err.0 {
        ErrorKind::Deserialized(DeserializedError::Regex { unmatched, regex }) => {
            assert_eq!(unmatched, "ip: 10.0.0.3/24 server_rtt: 7, cdn_rtt: 8");
            assert_eq!(regex, r"^ip: (.{2,45}/[0-9]+), server_rtt: ([0-9]+), cdn_rtt: ([0-9]+)$");
        }
        other => panic!("unexpected error {:?}", other),
    }
}

#[test]
fn lines_off_the_layout_in_many_ways() {
    let chars = |s: &str| s.chars().collect::<Vec<char>>();
    let bad = [
        "",
        "ip: 10.0.0.2/24, server_rtt: 7, cdn_rtt: ",
        "ip: 10.0.0.2/24, server_rtt: , cdn_rtt: 8",
        "ip: 10.0.0.2, server_rtt: 7, cdn_rtt: 8",
        "ip: a/24, server_rtt: 7, cdn_rtt: 8",
        "ip: 10.0.0.2/24, server_rtt: 7, cdn_rtt: 8 ",
        " ip: 10.0.0.2/24, server_rtt: 7, cdn_rtt: 8",
        "ip: 10.0.0.2/24, server_rtt: -7, cdn_rtt: 8",
        "ip: 10.0.0.2/24, server_rtt: 7, cdn_rtt: 8x",
        "ip: 0123456789012345678901234567890123456789012345/24, server_rtt: 7, cdn_rtt: 8",
        "IP: 10.0.0.2/24, server_rtt: 7, cdn_rtt: 8",
    ];
    for line in bad {
        let err = parse_line(&chars(line)).unwrap_err();
        assert!(
            matches!(*err.0, ErrorKind::Deserialized(DeserializedError::Regex { .. })),
            "{:?}",
            line
        );
    }
    let longest = "ip: 012345678901234567890123456789012345678901234/24, server_rtt: 7, cdn_rtt: 8";
    let err = parse_line(&chars(longest)).unwrap_err();
    assert!(matches!(*err.0, ErrorKind::Deserialized(DeserializedError::NetworkParse(_))));
}

#[test]
fn an_address_that_is_none_rejects_the_file() {
    let err = RttResults::from_str("ip: 10.0.0.256/24, server_rtt: 7, cdn_rtt: 8\n").unwrap_err();
    assert!(matches!(*err.0, ErrorKind::Deserialized(DeserializedError::NetworkParse(_))));
    let err = RttResults::from_str("ip: 10.0.0.1/33, server_rtt: 7, cdn_rtt: 8\n").unwrap_err();
    assert!(matches!(*err.0, ErrorKind::Deserialized(DeserializedError::NetworkParse(_))));
}

#[test]
fn a_number_that_does_not_fit_rejects_the_file() {
    let ok = RttResults::from_str("ip: 10.0.0.1/24, server_rtt: 18446744073709551615, cdn_rtt: 0\n")
        .unwrap();
    assert_eq!(ok.get(&ip("10.0.0.1/24")), Some(RttResult::new(u64::MAX, 0)));
    let err = RttResults::from_str("ip: 10.0.0.1/24, server_rtt: 18446744073709551616, cdn_rtt: 0\n")
        .unwrap_err();
    match *err.0 {
        ErrorKind::Deserialized(DeserializedError::ParseInt { digits }) => {
            assert_eq!(digits, "18446744073709551616")
        }
        other => panic!("unexpected error {:?}", other),
    }
    let err = RttResults::from_str("ip: 10.0.0.1/24, server_rtt: 1, cdn_rtt: 99999999999999999999\n")
        .unwrap_err();
    match *err.0 {
        ErrorKind::Deserialized(DeserializedError::ParseInt { digits }) => {
            assert_eq!(digits, "99999999999999999999")
        }
        other => panic!("unexpected error {:?}", other),
    }
}

#[test]
fn parse_line_reads_leading_zeros() {
    let line: Vec<char> = "ip: 10.0.0.1/024, server_rtt: 007, cdn_rtt: 0".chars().collect();
    let (key, record) = parse_line(&line).unwrap();
    assert_eq!(key, ip("10.0.0.1/24"));
    assert_eq!(record, RttResult::new(7, 0));
}

#[test]
fn enable_subnets_marks_the_ranges_that_hold_a_result() {
    let mut subnets = vec![
        Subnet::from_str("10.0.0.0/24").unwrap(),
        Subnet::from_str("10.0.1.0/24").unwrap(),
        Subnet::from_str("10.0.0.0/16").unwrap(),
        Subnet::from_str("2001:db8::/64").unwrap(),
    ];
    let mut results = RttResults::new();
    results.add_result(ip("10.0.0.7/24"), RttResult::new(1, 1));
    results.add_result(ip("2001:db8::99/64"), RttResult::new(2, 2));
    results.commit();
    results.add_result(ip("10.0.1.7/24"), RttResult::new(3, 3));
    results.enable_subnets(&mut subnets);
    let flags: Vec<bool> = subnets.iter().map(|s| s.enable).collect();
    assert_eq!(flags, vec![true, false, false, true]);
    results.commit();
    results.enable_subnets(&mut subnets);
    let flags: Vec<bool> = subnets.iter().map(|s| s.enable).collect();
    assert_eq!(flags, vec![true, true, false, true]);
}

#[test]
fn defaults_are_empty() {
    let results = RttResults::default();
    assert_eq!(results.len(), 0);
    assert!(results.ordered_keys().is_empty());
    let cache = RttResultCache::default();
    assert_eq!(cache.current_subnet, 0);
    assert_eq!(cache.current_subnet_start, 0);
}
