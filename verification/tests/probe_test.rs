use cdn_ip_tester::cache::RttResult;
use cdn_ip_tester::config::Config;
use cdn_ip_tester::error::{DeserializedError, Error, ErrorKind, ReqwestError, SerializedError};
use cdn_ip_tester::probe::{
    collect_results, contains_text, leg_result, pair_result, plan_probe, ports_fit, proxy_url,
    same_text,
};

fn timeout() -> ReqwestError {
    ReqwestError::network("operation timed out".to_string())
}

fn wrong_body() -> ReqwestError {
    ReqwestError::body_no_match("<html>".to_string(), "archlinux".to_string())
}

#[test]
fn a_leg_that_runs_out_of_time_leaves_nothing_for_its_member_only() {
    let first = pair_result(Ok(12), Ok(34));
    let second = pair_result(Ok(12), Err(timeout()));
    let third = pair_result(Ok(56), Ok(78));
    let outcome = collect_results(&vec![first, second, third], false);
    assert_eq!(
        outcome.results,
        vec![Some(RttResult::new(12, 34)), None, Some(RttResult::new(56, 78))]
    );
    assert!(outcome.body_warnings.is_empty());
}

#[test]
fn a_wrong_body_is_reported_unless_told_otherwise() {
    let outcomes = vec![
        pair_result(Err(wrong_body()), Ok(1)),
        pair_result(Ok(1), Ok(2)),
        pair_result(Ok(1), Err(wrong_body())),
        pair_result(Err(timeout()), Err(wrong_body())),
        Err(Error::from(DeserializedError::custom("Url must have domain, not IP"))),
    ];
    let loud = collect_results(&outcomes, false);
    assert_eq!(loud.results, vec![None, Some(RttResult::new(1, 2)), None, None, None]);
    assert_eq!(loud.body_warnings, vec![0, 2]);
    let quiet = collect_results(&outcomes, true);
    assert_eq!(quiet.results, loud.results);
    assert!(quiet.body_warnings.is_empty());
    let none = collect_results(&Vec::new(), false);
    assert!(none.results.is_empty());
}

#[test]
fn the_fault_of_the_reference_leg_comes_first() {
    let both = pair_result(Err(timeout()), Err(wrong_body())).unwrap_err();
    assert!(matches!(*both.0, ErrorKind::Reqwest(ReqwestError::Network { .. })));
    let cdn_only = pair_result(Ok(5), Err(wrong_body())).unwrap_err();
    assert!(matches!(*cdn_only.0, ErrorKind::Reqwest(ReqwestError::BodyNoMatch { .. })));
    assert_eq!(pair_result(Ok(5), Ok(6)).unwrap(), RttResult::new(5, 6));
}

#[test]
fn a_leg_answers_if_its_body_holds_the_expected_text() {
    assert_eq!(leg_result("Index of /archlinux/".to_string(), "archlinux".to_string(), 42).unwrap(), 42);
    assert_eq!(leg_result("anything".to_string(), "".to_string(), 7).unwrap(), 7);
    assert_eq!(leg_result("".to_string(), "".to_string(), 7).unwrap(), 7);
    match leg_result("Index of /debian/".to_string(), "archlinux".to_string(), 42) {
        Err(ReqwestError::BodyNoMatch { body, expected }) => {
            assert_eq!(body, "Index of /debian/");
            assert_eq!(expected, "archlinux");
        }
        other => panic!("unexpected outcome {:?}", other),
    }
    assert!(leg_result("arch".to_string(), "archlinux".to_string(), 1).is_err());
}

#[test]
fn text_search() {
    let chars = |s: &str| s.chars().collect::<Vec<char>>();
    assert!(contains_text(&chars("hello world"), &chars("o w")));
    assert!(contains_text(&chars("hello world"), &chars("hello world")));
    assert!(contains_text(&chars("hello world"), &chars("d")));
    assert!(contains_text(&chars("aaab"), &chars("aab")));
    assert!(!contains_text(&chars("hello world"), &chars("worlds")));
    assert!(!contains_text(&chars(""), &chars("a")));
    assert!(contains_text(&chars("grüße"), &chars("üß")));
    assert!(same_text("abc", "abc"));
    assert!(!same_text("abc", "abd"));
    assert!(!same_text("abc", "ab"));
    assert!(same_text("", ""));
}

#[test]
fn the_proxy_of_a_member_is_its_listener() {
    assert_eq!(proxy_url("127.0.0.2", 31000, 0), "socks5://127.0.0.2:31000");
    assert_eq!(proxy_url("127.0.0.2", 31000, 49), "socks5://127.0.0.2:31049");
    assert_eq!(proxy_url("::1", 65535, 0), "socks5://::1:65535");
    assert!(ports_fit(31000, 50));
    assert!(ports_fit(65535, 1));
    assert!(!ports_fit(65535, 2));
    assert!(ports_fit(0, 65536));
    assert!(!ports_fit(0, 65537));
}

#[test]
fn a_probe_is_planned_from_the_settings() {
    let config = Config::default();
    let plan = plan_probe(&config, "104.16.1.2", 3).unwrap();
    assert_eq!(plan.proxy, "socks5://127.0.0.2:31003");
    assert_eq!(plan.server_url, "http://127.0.0.1/");
    assert_eq!(plan.cdn_url, "http://archlinux.cloudflaremirrors.com");
    assert_eq!(plan.cdn_domain, "archlinux.cloudflaremirrors.com");
    assert_eq!(plan.cdn_port, 80);
}

#[test]
fn the_port_of_a_probe_is_that_of_its_url_or_of_its_scheme() {
    let mut config = Config::default();
    config.cdn_url = "https://Example.COM/path".to_string();
    let plan = plan_probe(&config, "104.16.1.2", 0).unwrap();
    assert_eq!(plan.cdn_domain, "example.com");
    assert_eq!(plan.cdn_port, 443);
    config.cdn_url = "http://example.com:8080/".to_string();
    assert_eq!(plan_probe(&config, "104.16.1.2", 0).unwrap().cdn_port, 8080);
}

#[test]
fn without_an_endpoint_the_candidate_is_asked_by_its_address() {
    let mut config = Config::default();
    config.cdn_url = String::new();
    let plan = plan_probe(&config, "104.16.1.2", 0).unwrap();
    assert_eq!(plan.cdn_url, "http://104.16.1.2");
    assert_eq!(plan.cdn_domain, "104.16.1.2");
    assert_eq!(plan.cdn_port, 80);
}

#[test]
fn an_endpoint_by_address_is_refused() {
    let mut config = Config::default();
    config.cdn_url = "http://1.2.3.4/".to_string();
    let err = plan_probe(&config, "104.16.1.2", 0).unwrap_err();
    match *err.0 {
        ErrorKind::Deserialized(DeserializedError::Custom(msg)) => {
            assert_eq!(msg, "Url must have domain, not IP")
        }
        other => panic!("unexpected error {:?}", other),
    }
}

#[test]
fn an_endpoint_of_another_scheme_is_refused() {
    let mut config = Config::default();
    config.cdn_url = "ftp://example.com/".to_string();
    let err = plan_probe(&config, "104.16.1.2", 0).unwrap_err();
    match *err.0 {
        ErrorKind::Deserialized(DeserializedError::Custom(msg)) => {
            assert_eq!(msg, "Url scheme must be http or https")
        }
        other => panic!("unexpected error {:?}", other),
    }
}

#[test]
fn an_endpoint_that_is_no_url_is_refused() {
    let mut config = Config::default();
    config.server_url = "not a url".to_string();
    let err = plan_probe(&config, "104.16.1.2", 0).unwrap_err();
    assert!(matches!(*err.0, ErrorKind::Deserialized(DeserializedError::ParseUrl(_))));
    let mut config = Config::default();
    config.cdn_url = "://nothing".to_string();
    let err = plan_probe(&config, "104.16.1.2", 0).unwrap_err();
    assert!(matches!(*err.0, ErrorKind::Deserialized(DeserializedError::ParseUrl(_))));
}

#[test]
fn the_default_settings() {
    let config = Config::default();
    assert_eq!(config.port_base, 31000);
    assert_eq!(config.max_connection_count, 50);
    assert_eq!(config.server_url, "http://127.0.0.1/");
    assert_eq!(config.cdn_url, "http://archlinux.cloudflaremirrors.com");
    assert_eq!(config.listen_ip, "127.0.0.2");
    assert_eq!(config.max_rtt, 1000);
    assert_eq!(config.server_res_body, "");
    assert_eq!(config.cdn_res_body, "archlinux");
    assert_eq!(config.max_subnet_len, usize::MAX);
    assert_eq!(config.enable_threshold, 10);
}

#[test]
fn errors_are_made_of_their_parts() {
    match DeserializedError::regex("line".to_string(), "^a$") {
        DeserializedError::Regex { unmatched, regex } => {
            assert_eq!(unmatched, "line");
            assert_eq!(regex, "^a$");
        }
        other => panic!("unexpected error {:?}", other),
    }
    assert!(matches!(DeserializedError::custom("why"), DeserializedError::Custom(m) if m == "why"));
    assert!(matches!(ReqwestError::build("b".to_string()), ReqwestError::Build { source } if source == "b"));
    assert!(matches!(ReqwestError::network("n".to_string()), ReqwestError::Network { source } if source == "n"));
    assert!(wrong_body().is_body_no_match());
    assert!(!timeout().is_body_no_match());
    let e = Error::from(SerializedError::Address { text: "x".to_string() });
    assert!(matches!(*e.0, ErrorKind::Serialized(SerializedError::Address { .. })));
    let e = Error::from(timeout());
    assert!(matches!(*e.0, ErrorKind::Reqwest(ReqwestError::Network { .. })));
}
