use cdn_ip_tester::cache::{RttResult, RttResultCache, RttResults};
use cdn_ip_tester::data::Subnet;
use cdn_ip_tester::error::{DeserializedError, ErrorKind};
use cdn_ip_tester::inet::IpInet;
use cdn_ip_tester::scan::{
    calc_all_ip_count, calc_start_ip_count, calc_subnet_len, check_cursor, is_eligible,
    limit_subnets, max_subnet_len, next_batch, record_results, Progress, ScanSettings,
};

fn subnets_of(texts: &[&str]) -> Vec<Subnet> {
    texts.iter().map(|t| Subnet::from_str(t).unwrap()).collect()
}

fn settings(max_connection_count: usize, max_subnet_len: usize) -> ScanSettings {
    ScanSettings { max_connection_count, max_subnet_len, auto_skip: false, enable_threshold: 10 }
}

fn at(current_subnet: usize, current_subnet_start: usize) -> RttResultCache {
    RttResultCache { current_subnet, current_subnet_start }
}

fn run_to_end(subnets: &Vec<Subnet>, cache: &mut RttResultCache, s: &ScanSettings) -> Vec<String> {
    let mut all = Vec::new();
    while cache.current_subnet_start < s.max_subnet_len {
        let batch = next_batch(subnets, cache, s);
        all.extend(batch.ips.iter().map(|ip| ip.to_text()));
    }
    all
}

#[test]
fn every_range_is_visited_before_the_offset_goes_up() {
    let subnets = subnets_of(&["10.0.0.0/30", "10.0.1.0/31", "10.0.2.0/32"]);
    let s = settings(100, 4);
    let mut cache = at(0, 0);
    let batch = next_batch(&subnets, &mut cache, &s);
    let texts: Vec<String> = batch.ips.iter().map(|ip| ip.to_text()).collect();
    assert_eq!(
        texts,
        vec![
            "10.0.0.0/30", "10.0.1.0/31", "10.0.2.0/32", "10.0.0.1/30", "10.0.1.1/31",
            "10.0.0.2/30", "10.0.0.3/30",
        ]
    );
    assert_eq!(batch.subnet_idxs, vec![0, 1, 2, 0, 1, 0, 0]);
    assert_eq!(cache, at(0, 4));
    assert_eq!(batch.progress, None);
    let empty = next_batch(&subnets, &mut cache, &s);
    assert!(empty.ips.is_empty());
    assert_eq!(cache, at(0, 4));
}

#[test]
fn a_batch_is_full_at_the_connection_count() {
    let subnets = subnets_of(&["10.0.0.0/24", "10.0.1.0/24", "10.0.2.0/24"]);
    let s = settings(4, 256);
    let mut cache = at(0, 0);
    let first = next_batch(&subnets, &mut cache, &s);
    assert_eq!(first.ips.len(), 4);
    assert_eq!(first.subnet_idxs, vec![0, 1, 2, 0]);
    assert_eq!(cache, at(1, 1));
    let second = next_batch(&subnets, &mut cache, &s);
    assert_eq!(second.subnet_idxs, vec![1, 2, 0, 1]);
    assert_eq!(second.ips[0].to_text(), "10.0.1.1/24");
    assert_eq!(cache, at(2, 2));
}

#[test]
fn a_scan_taken_up_again_goes_on_as_it_would_have() {
    let subnets = subnets_of(&["10.0.0.0/28", "10.0.1.0/29", "10.0.2.0/28", "10.0.3.0/30"]);
    let s = settings(5, 16);
    let mut whole = at(0, 0);
    let mut seen_before = Vec::new();
    while whole != at(2, 5) {
        let step = ScanSettings { max_connection_count: 1, ..s };
        let batch = next_batch(&subnets, &mut whole, &step);
        seen_before.extend(batch.ips.iter().map(|ip| ip.to_text()));
        assert!(whole.current_subnet_start <= 5, "the place (2, 5) was passed");
    }
    let uninterrupted = run_to_end(&subnets, &mut whole, &s);
    let mut resumed_at = at(2, 5);
    let resumed = run_to_end(&subnets, &mut resumed_at, &s);
    assert_eq!(resumed, uninterrupted);
    assert_eq!(resumed[0], "10.0.2.5/28");
    let mut from_start = at(0, 0);
    let all = run_to_end(&subnets, &mut from_start, &s);
    let mut joined = seen_before.clone();
    joined.extend(resumed.iter().cloned());
    assert_eq!(all, joined);
    assert_eq!(all.len(), 16 + 8 + 16 + 4);
}

#[test]
fn the_batch_size_does_not_change_what_is_scanned() {
    let subnets = subnets_of(&["10.0.0.0/29", "10.0.1.0/30", "2001:db8::/125"]);
    let mut one = at(0, 0);
    let by_one = run_to_end(&subnets, &mut one, &settings(1, 8));
    let mut seven = at(0, 0);
    let by_seven = run_to_end(&subnets, &mut seven, &settings(7, 8));
    assert_eq!(by_one, by_seven);
    assert_eq!(by_one.len(), 8 + 4 + 8);
}

#[test]
fn behind_the_threshold_only_enabled_ranges_give_addresses() {
    let mut subnets = subnets_of(&["10.0.0.0/24", "10.0.1.0/24"]);
    subnets[1].enable = true;
    let s = ScanSettings {
        max_connection_count: 2,
        max_subnet_len: 3,
        auto_skip: true,
        enable_threshold: 1,
    };
    let mut cache = at(0, 0);
    let first = next_batch(&subnets, &mut cache, &s);
    assert_eq!(first.subnet_idxs, vec![0, 1]);
    assert_eq!(first.ips[0].to_text(), "10.0.0.0/24");
    assert_eq!(first.ips[1].to_text(), "10.0.1.0/24");
    assert_eq!(cache, at(0, 1));
    let rest = next_batch(&subnets, &mut cache, &s);
    assert_eq!(rest.subnet_idxs, vec![1, 1]);
    assert_eq!(rest.ips[0].to_text(), "10.0.1.1/24");
    assert_eq!(rest.ips[1].to_text(), "10.0.1.2/24");
    assert_eq!(cache, at(0, 3));
}

#[test]
fn without_auto_skip_every_range_gives_addresses() {
    let subnets = subnets_of(&["10.0.0.0/24", "10.0.1.0/24"]);
    let s = ScanSettings {
        max_connection_count: 10,
        max_subnet_len: 2,
        auto_skip: false,
        enable_threshold: 1,
    };
    let mut cache = at(0, 0);
    let batch = next_batch(&subnets, &mut cache, &s);
    assert_eq!(batch.subnet_idxs, vec![0, 1, 0, 1]);
}

#[test]
fn a_scan_with_no_enabled_range_ends_without_addresses() {
    let subnets = subnets_of(&["10.0.0.0/24", "10.0.1.0/24"]);
    let s = ScanSettings {
        max_connection_count: 10,
        max_subnet_len: 200,
        auto_skip: true,
        enable_threshold: 1,
    };
    let mut cache = at(0, 1);
    let batch = next_batch(&subnets, &mut cache, &s);
    assert!(batch.ips.is_empty());
    assert_eq!(cache, at(0, 200));
}

#[test]
fn the_count_is_taken_anew_when_the_offset_reaches_the_threshold() {
    let mut subnets = subnets_of(&["10.0.0.0/24", "10.0.1.0/24", "10.0.2.0/30"]);
    subnets[0].enable = true;
    let s = ScanSettings {
        max_connection_count: 4,
        max_subnet_len: 100,
        auto_skip: true,
        enable_threshold: 1,
    };
    let mut cache = at(0, 0);
    let batch = next_batch(&subnets, &mut cache, &s);
    assert_eq!(batch.subnet_idxs, vec![0, 1, 2, 0]);
    assert_eq!(cache, at(1, 1));
    assert_eq!(batch.progress, Some(Progress { all_ip_count: 100, start_ip_count: 0 }));
    let next = next_batch(&subnets, &mut cache, &s);
    assert_eq!(next.progress, None);
    assert_eq!(next.subnet_idxs, vec![0, 0, 0, 0]);
}

#[test]
fn the_new_count_leaves_out_what_the_batch_holds() {
    let mut subnets = subnets_of(&["10.0.0.0/24", "10.0.1.0/24"]);
    subnets[0].enable = true;
    subnets[1].enable = true;
    let s = ScanSettings {
        max_connection_count: 3,
        max_subnet_len: 50,
        auto_skip: true,
        enable_threshold: 5,
    };
    let mut cache = at(1, 4);
    let batch = next_batch(&subnets, &mut cache, &s);
    assert_eq!(batch.subnet_idxs, vec![1, 0, 1]);
    assert_eq!(cache, at(0, 6));
    assert_eq!(batch.progress, Some(Progress { all_ip_count: 100, start_ip_count: 9 }));
}

#[test]
fn no_connections_no_batch() {
    let subnets = subnets_of(&["10.0.0.0/24"]);
    let s = settings(0, 10);
    let mut cache = at(0, 3);
    let batch = next_batch(&subnets, &mut cache, &s);
    assert!(batch.ips.is_empty());
    assert_eq!(cache, at(0, 3));
}

#[test]
fn eligibility() {
    let mut subnet = Subnet::from_str("10.0.0.0/24").unwrap();
    let mut s = ScanSettings {
        max_connection_count: 1,
        max_subnet_len: 1,
        auto_skip: true,
        enable_threshold: 10,
    };
    assert!(is_eligible(&subnet, 9, &s));
    assert!(!is_eligible(&subnet, 10, &s));
    subnet.enable = true;
    assert!(is_eligible(&subnet, 10, &s));
    subnet.enable = false;
    s.auto_skip = false;
    assert!(is_eligible(&subnet, 10, &s));
    assert_eq!(Subnet::ENABLE_THRESHOLD, 10);
}

#[test]
fn counts_of_a_scan() {
    let mut subnets = subnets_of(&["10.0.0.0/24", "10.0.1.0/30", "10.2.0.0/16"]);
    let s = settings(10, 100);
    assert_eq!(calc_subnet_len(&subnets[0], &at(0, 0), &s), 100);
    assert_eq!(calc_subnet_len(&subnets[1], &at(0, 0), &s), 4);
    assert_eq!(calc_all_ip_count(&subnets, &at(0, 0), &s), 204);
    assert_eq!(calc_start_ip_count(&subnets, &at(0, 0), &s), 0);
    assert_eq!(calc_start_ip_count(&subnets, &at(2, 3), &s), 3 + 1 + 3 + 1 + 3);
    assert_eq!(calc_start_ip_count(&subnets, &at(1, 50), &s), 50 + 1 + 4 + 50);
    let skipping = ScanSettings { auto_skip: true, enable_threshold: 2, ..s };
    assert_eq!(calc_all_ip_count(&subnets, &at(0, 1), &skipping), 204);
    assert_eq!(calc_all_ip_count(&subnets, &at(0, 2), &skipping), 0);
    subnets[2].enable = true;
    assert_eq!(calc_all_ip_count(&subnets, &at(0, 2), &skipping), 100);
    assert_eq!(calc_subnet_len(&subnets[0], &at(0, 2), &skipping), 0);
    assert_eq!(calc_start_ip_count(&subnets, &at(2, 7), &skipping), 7);
    assert_eq!(calc_all_ip_count(&Vec::new(), &at(0, 0), &s), 0);
}

#[test]
fn counts_do_not_overflow_on_wide_ranges() {
    let subnets = subnets_of(&["::/0", "::/0", "0.0.0.0/0"]);
    let s = settings(10, usize::MAX);
    assert_eq!(
        calc_all_ip_count(&subnets, &at(0, 0), &s),
        2 * usize::MAX as u128 + (1u128 << 32)
    );
}

#[test]
fn the_ceiling_is_the_largest_range_or_the_limit() {
    let subnets = subnets_of(&["10.0.0.0/24", "10.0.1.0/30", "10.0.16.0/20"]);
    assert_eq!(max_subnet_len(&subnets, usize::MAX), 4096);
    assert_eq!(max_subnet_len(&subnets, 1000), 1000);
    assert_eq!(max_subnet_len(&subnets, 0), 0);
    assert_eq!(max_subnet_len(&Vec::new(), 1000), 0);
    assert_eq!(max_subnet_len(&subnets_of(&["::/0"]), usize::MAX), usize::MAX);
}

#[test]
fn a_place_outside_the_ranges_is_refused() {
    assert!(check_cursor(&at(2, 5), 3, 6).is_ok());
    let err = check_cursor(&at(3, 5), 3, 6).unwrap_err();
    match *err.0 {
        ErrorKind::Deserialized(DeserializedError::Custom(msg)) => assert_eq!(
            msg,
            "Can not load rtt result cache. current_subnet: 3, but subnets.len(): 3"
        ),
        other => panic!("unexpected error {:?}", other),
    }
    let err = check_cursor(&at(2, 6), 3, 6).unwrap_err();
    match *err.0 {
        ErrorKind::Deserialized(DeserializedError::Custom(msg)) => assert_eq!(
            msg,
            "Can not load rtt result cache. current_subnet_start: 6, but max_subnet_len: 6"
        ),
        other => panic!("unexpected error {:?}", other),
    }
    let err = check_cursor(&at(9, 9), 3, 6).unwrap_err();
    match *err.0 {
        ErrorKind::Deserialized(DeserializedError::Custom(msg)) => {
            assert!(msg.contains("current_subnet: 9"))
        }
        other => panic!("unexpected error {:?}", other),
    }
    assert!(check_cursor(&at(0, 0), 0, 0).is_err());
}

#[test]
fn the_range_list_can_be_cut_short() {
    let subnets = subnets_of(&["10.0.0.0/24", "10.0.1.0/24", "10.0.2.0/24"]);
    assert_eq!(limit_subnets(subnets.clone(), 0), subnets);
    assert_eq!(limit_subnets(subnets.clone(), 2), subnets[..2].to_vec());
    assert_eq!(limit_subnets(subnets.clone(), 3), subnets);
}

#[test]
fn answers_are_added_and_committed() {
    let mut subnets = subnets_of(&["10.0.0.0/24", "10.0.1.0/24", "10.0.2.0/24"]);
    let s = ScanSettings {
        max_connection_count: 3,
        max_subnet_len: 256,
        auto_skip: true,
        enable_threshold: 1,
    };
    let mut cache = at(0, 0);
    let mut results = RttResults::new();
    let batch = next_batch(&subnets, &mut cache, &s);
    assert_eq!(cache, at(0, 1));
    let answers = vec![Some(RttResult::new(30, 1)), None, Some(RttResult::new(20, 1))];
    let earlier = at(0, 0);
    let count = record_results(&mut subnets, &mut results, &earlier, &s, &batch, &answers);
    assert_eq!(count, 2);
    let flags: Vec<bool> = subnets.iter().map(|x| x.enable).collect();
    assert_eq!(flags, vec![true, false, true]);
    assert_eq!(
        results.ordered_keys(),
        vec![IpInet::from_str("10.0.2.0/24").unwrap(), IpInet::from_str("10.0.0.0/24").unwrap()]
    );
    assert_eq!(results.len(), 2);
}

#[test]
fn behind_the_threshold_an_answer_enables_nothing() {
    let mut subnets = subnets_of(&["10.0.0.0/24", "10.0.1.0/24"]);
    let s = settings(2, 256);
    let mut cache = at(0, 10);
    let mut results = RttResults::new();
    let batch = next_batch(&subnets, &mut cache, &s);
    let answers = vec![Some(RttResult::new(3, 1)), Some(RttResult::new(2, 1))];
    let count = record_results(&mut subnets, &mut results, &cache, &s, &batch, &answers);
    assert_eq!(count, 2);
    assert!(subnets.iter().all(|x| !x.enable));
    assert_eq!(results.len(), 2);
}

#[test]
fn a_batch_without_answers_changes_nothing() {
    let mut subnets = subnets_of(&["10.0.0.0/24", "10.0.1.0/24"]);
    let s = settings(2, 256);
    let mut cache = at(0, 0);
    let mut results = RttResults::new();
    results.add_result(IpInet::from_str("10.9.9.9/24").unwrap(), RttResult::new(1, 1));
    let batch = next_batch(&subnets, &mut cache, &s);
    let count = record_results(&mut subnets, &mut results, &cache, &s, &batch, &vec![None, None]);
    assert_eq!(count, 0);
    assert!(subnets.iter().all(|x| !x.enable));
    assert!(results.ordered_keys().is_empty());
    assert_eq!(results.len(), 1);
}
