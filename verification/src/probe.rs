//! One probe: what is asked of whom, and what the two legs of a probe make
//! together.
//!
//! A probe has two legs that run side by side: one to the reference endpoint
//! through the listener of the batch member, one to the candidate itself.
//! Sending and timing are the caller's; what is decided here is the plan of
//! a probe before it is sent and its outcome once both legs have ended.

use crate::cache::RttResult;
use crate::config::Config;
use crate::decimal::{decimal_chars, decimal_text};
use crate::error::{DeserializedError, Error, ErrorKind, ReqwestError};
use crate::text::{chars_of, matches_at, push_chars};
use vstd::prelude::*;
use vstd::string::StringExecFns;

verus! {

/// `needle` occurs in `hay`.
pub open spec fn is_substring(needle: Seq<char>, hay: Seq<char>) -> bool {
    exists|i: int|
        0 <= i && i + needle.len() <= hay.len() && #[trigger] hay.subrange(i, i + needle.len())
            == needle
}

/// Whether `needle` occurs in `hay`.
pub fn contains_text(hay: &Vec<char>, needle: &Vec<char>) -> (r: bool)
    ensures
        r == is_substring(needle@, hay@),
{
    if needle.len() > hay.len() {
        return false;
    }
    let last = hay.len() - needle.len();
    let mut i: usize = 0;
    while i < last
        invariant
            i <= last,
            last == hay.len() - needle.len(),
            forall|p: int| 0 <= p < i ==> #[trigger] hay@.subrange(p, p + needle.len()) != needle@,
        decreases last - i,
    {
        if matches_at(hay, i, needle) {
            return true;
        }
        i = i + 1;
    }
    matches_at(hay, last, needle)
}

/// Whether two texts are the same.
pub fn same_text(a: &str, b: &str) -> (r: bool)
    ensures
        r == (a@ == b@),
{
    let x = chars_of(a);
    let y = chars_of(b);
    if x.len() != y.len() {
        return false;
    }
    assert(y@.subrange(0, y.len() as int) =~= y@);
    assert(x@.subrange(0, x.len() as int) =~= x@);
    matches_at(&x, 0, &y)
}

/// The outcome of one leg whose answer came after `elapsed` milliseconds:
/// the time, if the body holds the expected text, and else the fault of a
/// wrong body.
pub fn leg_result(body: String, expected_body: String, elapsed: u64) -> (r: Result<
    u64,
    ReqwestError,
>)
    ensures
        r == (if is_substring(expected_body@, body@) {
            Ok::<u64, ReqwestError>(elapsed)
        } else {
            Err::<u64, ReqwestError>(ReqwestError::BodyNoMatch { body, expected: expected_body })
        }),
{
    let hay = chars_of(body.as_str());
    let needle = chars_of(expected_body.as_str());
    if contains_text(&hay, &needle) {
        Ok(elapsed)
    } else {
        Err(ReqwestError::body_no_match(body, expected_body))
    }
}

/// The outcome of a probe from the outcomes of its legs: a record if both
/// legs answered, and else the fault of the leg to the reference endpoint,
/// or of the leg to the candidate if only that one failed.
pub fn pair_result(server: Result<u64, ReqwestError>, cdn: Result<u64, ReqwestError>) -> (r: Result<
    RttResult,
    Error,
>)
    ensures
        match (server, cdn) {
            (Ok(s), Ok(c)) => r == Ok::<RttResult, Error>(RttResult { server_rtt: s, cdn_rtt: c }),
            (Err(e), _) => r matches Err(err) && err.kind() == ErrorKind::Reqwest(e),
            (Ok(_), Err(e)) => r matches Err(err) && err.kind() == ErrorKind::Reqwest(e),
        },
{
    match server {
        Err(e) => Err(Error::from(e)),
        Ok(server_rtt) => match cdn {
            Err(e) => Err(Error::from(e)),
            Ok(cdn_rtt) => Ok(RttResult::new(server_rtt, cdn_rtt)),
        },
    }
}

/// What a batch made: for each member its record or nothing, and which
/// members are to be reported for a wrong body.
#[derive(Debug)]
pub struct BatchOutcome {
    pub results: Vec<Option<RttResult>>,
    pub body_warnings: Vec<usize>,
}

/// A failed probe is reported if it failed for a wrong body and such
/// reports are wanted.
pub open spec fn warned(outcome: Result<RttResult, Error>, ignore_body_warning: bool) -> bool {
    &&& !ignore_body_warning
    &&& outcome matches Err(e)
    &&& e.kind() matches ErrorKind::Reqwest(ReqwestError::BodyNoMatch { .. })
}

/// The indices of the outcomes that are reported, in ascending order.
pub open spec fn warnings_of(outcomes: Seq<Result<RttResult, Error>>, ignore_body_warning: bool) -> Seq<
    usize,
>
    decreases outcomes.len(),
{
    if outcomes.len() == 0 {
        Seq::<usize>::empty()
    } else {
        let head = warnings_of(outcomes.drop_last(), ignore_body_warning);
        if warned(outcomes.last(), ignore_body_warning) {
            head.push((outcomes.len() - 1) as usize)
        } else {
            head
        }
    }
}

/// Gathers the outcomes of a batch, member by member and in their order. A
/// probe that failed, for whatever reason, leaves nothing for its member and
/// does not touch the others.
pub fn collect_results(outcomes: &Vec<Result<RttResult, Error>>, ignore_body_warning: bool) -> (out:
    BatchOutcome)
    ensures
        out.results.len() == outcomes.len(),
        forall|i: int|
            0 <= i < outcomes.len() ==> #[trigger] out.results[i] == (match outcomes[i] {
                Ok(rtt) => Some(rtt),
                Err(_) => None,
            }),
        out.body_warnings@ == warnings_of(outcomes@, ignore_body_warning),
{
    let mut results: Vec<Option<RttResult>> = Vec::new();
    let mut body_warnings: Vec<usize> = Vec::new();
    let mut i: usize = 0;
    while i < outcomes.len()
        invariant
            i <= outcomes.len(),
            results.len() == i,
            forall|p: int|
                0 <= p < i ==> #[trigger] results[p] == (match outcomes[p] {
                    Ok(rtt) => Some(rtt),
                    Err(_) => None,
                }),
            body_warnings@ == warnings_of(outcomes@.take(i as int), ignore_body_warning),
        decreases outcomes.len() - i,
    {
        proof {
            assert(outcomes@.take(i + 1).drop_last() =~= outcomes@.take(i as int));
            assert(outcomes@.take(i + 1).last() == outcomes[i as int]);
        }
        match &outcomes[i] {
            Ok(rtt) => {
                results.push(Some(*rtt));
            },
            Err(err) => {
                let wrong_body = match &*err.0 {
                    ErrorKind::Reqwest(e) => e.is_body_no_match(),
                    _ => false,
                };
                if !ignore_body_warning && wrong_body {
                    body_warnings.push(i);
                }
                results.push(None);
            },
        }
        i = i + 1;
    }
    proof {
        assert(outcomes@.take(i as int) =~= outcomes@);
    }
    BatchOutcome { results, body_warnings }
}

/// The parts of a URL that a probe needs.
#[derive(Debug)]
pub struct UrlParts {
    pub scheme: String,
    pub domain: Option<String>,
    pub port: Option<u16>,
}

/// The parts of a URL as plain values.
pub struct UrlModel {
    pub scheme: Seq<char>,
    pub domain: Option<Seq<char>>,
    pub port: Option<u16>,
}

impl View for UrlParts {
    type V = UrlModel;

    open spec fn view(&self) -> UrlModel {
        UrlModel {
            scheme: self.scheme@,
            domain: match self.domain {
                Some(d) => Some(d@),
                None => None,
            },
            port: self.port,
        }
    }
}

/// What the `url` crate makes of a text: its scheme, its host if that is a
/// domain name, and its port or the port that its scheme is known for; or
/// `None` where it refuses the text.
pub uninterp spec fn url_parse_of(text: Seq<char>) -> Option<UrlModel>;

/// The scheme is `http` or `https`.
pub open spec fn is_web(scheme: Seq<char>) -> bool {
    scheme == "http"@ || scheme == "https"@
}

/// Calls `url::Url::parse` and takes from the URL what `scheme`, `domain`
/// and `port_or_known_default` give. The crate's documentation says of the
/// last that it always gives a port for the schemes `http` and `https`.
#[verifier::external_body]
fn parse_url(s: &str) -> (r: Result<UrlParts, url::ParseError>)
    ensures
        match r {
            Ok(u) => url_parse_of(s@) == Some(u@) && (is_web(u@.scheme) ==> u@.port is Some),
            Err(_) => url_parse_of(s@) is None,
        },
{
    let url = url::Url::parse(s)?;
    Ok(
        UrlParts {
            scheme: url.scheme().to_string(),
            domain: url.domain().map(|d| d.to_string()),
            port: url.port_or_known_default(),
        },
    )
}

/// What one probe asks, and through what.
#[derive(Debug)]
pub struct ProbePlan {
    /// The proxy of the leg to the reference endpoint: the listener of the
    /// batch member.
    pub proxy: String,
    /// The reference endpoint.
    pub server_url: String,
    /// The endpoint asked of the candidate.
    pub cdn_url: String,
    /// The host name that is resolved to the candidate's address.
    pub cdn_domain: String,
    /// The port at the candidate's address.
    pub cdn_port: u16,
}

/// The proxy of batch member `idx`.
pub open spec fn proxy_text(listen_ip: Seq<char>, port_base: u16, idx: usize) -> Seq<char> {
    "socks5://"@ + listen_ip + ":"@ + decimal_text((port_base + idx) as nat)
}

/// The endpoint asked of a candidate: the configured one, or the candidate's
/// own address where none is configured.
pub open spec fn cdn_url_text(cdn_url: Seq<char>, cdn_ip: Seq<char>) -> Seq<char> {
    if cdn_url.len() == 0 {
        "http://"@ + cdn_ip
    } else {
        cdn_url
    }
}

/// Why a probe cannot be planned.
pub enum PlanFault {
    /// The reference endpoint is no URL.
    ServerUrl,
    /// The endpoint asked of the candidate is no URL.
    CdnUrl,
    /// The configured endpoint names its host by address.
    Domain,
    /// The endpoint is neither `http` nor `https`.
    Scheme,
}

/// The first reason, if any, why a probe cannot be planned.
pub open spec fn plan_fault(config: Config, cdn_ip: Seq<char>) -> Option<PlanFault> {
    let cdn = url_parse_of(cdn_url_text(config.cdn_url@, cdn_ip));
    if url_parse_of(config.server_url@) is None {
        Some(PlanFault::ServerUrl)
    } else if cdn is None {
        Some(PlanFault::CdnUrl)
    } else if cdn->0.domain is None && config.cdn_url@.len() != 0 {
        Some(PlanFault::Domain)
    } else if !is_web(cdn->0.scheme) {
        Some(PlanFault::Scheme)
    } else {
        None
    }
}

/// The error that reports a fault of a plan.
pub open spec fn reports_plan(e: Error, fault: PlanFault) -> bool {
    match fault {
        PlanFault::ServerUrl => e.kind() matches ErrorKind::Deserialized(
            DeserializedError::ParseUrl(_),
        ),
        PlanFault::CdnUrl => e.kind() matches ErrorKind::Deserialized(
            DeserializedError::ParseUrl(_),
        ),
        PlanFault::Domain => e.kind() matches ErrorKind::Deserialized(
            DeserializedError::Custom(msg),
        ) && msg@ == "Url must have domain, not IP"@,
        PlanFault::Scheme => e.kind() matches ErrorKind::Deserialized(
            DeserializedError::Custom(msg),
        ) && msg@ == "Url scheme must be http or https"@,
    }
}

/// Whether the listeners of `count` batch members have ports.
pub fn ports_fit(port_base: u16, count: usize) -> (r: bool)
    ensures
        r == (port_base + count <= 0x1_0000),
{
    count <= 0x1_0000 - port_base as usize
}

/// The proxy of batch member `idx`.
pub fn proxy_url(listen_ip: &str, port_base: u16, idx: usize) -> (s: String)
    requires
        port_base + idx <= u16::MAX,
    ensures
        s@ == proxy_text(listen_ip@, port_base, idx),
{
    let port: u16 = port_base + idx as u16;
    let mut s = String::new();
    s.append("socks5://");
    s.append(listen_ip);
    s.append(":");
    push_chars(&mut s, &decimal_chars(port as u64));
    assert(s@ =~= proxy_text(listen_ip@, port_base, idx));
    s
}

/// Plans the probe of batch member `idx`, whose candidate has the address
/// `cdn_ip`. The leg to the reference endpoint goes through the member's
/// listener. The leg to the candidate asks the configured endpoint with its
/// host name resolved to the candidate, or the candidate by its address
/// where no endpoint is configured.
pub fn plan_probe(config: &Config, cdn_ip: &str, idx: usize) -> (r: Result<ProbePlan, Error>)
    requires
        config.port_base + idx <= u16::MAX,
    ensures
        match r {
            Ok(plan) => {
                let cdn = url_parse_of(cdn_url_text(config.cdn_url@, cdn_ip@));
                &&& plan_fault(*config, cdn_ip@) is None
                &&& plan.proxy@ == proxy_text(config.listen_ip@, config.port_base, idx)
                &&& plan.server_url@ == config.server_url@
                &&& plan.cdn_url@ == cdn_url_text(config.cdn_url@, cdn_ip@)
                &&& plan.cdn_domain@ == (match cdn->0.domain {
                    Some(d) => d,
                    None => cdn_ip@,
                })
                &&& cdn->0.port == Some(plan.cdn_port)
            },
            Err(e) => plan_fault(*config, cdn_ip@) matches Some(fault) && reports_plan(e, fault),
        },
{
    let proxy = proxy_url(config.listen_ip.as_str(), config.port_base, idx);
    match parse_url(config.server_url.as_str()) {
        Ok(_) => {},
        Err(e) => {
            return Err(Error::from(DeserializedError::ParseUrl(e)));
        },
    }
    let cdn_url = if config.cdn_url.as_str().is_empty() {
        let mut s = String::new();
        s.append("http://");
        s.append(cdn_ip);
        assert(s@ =~= "http://"@ + cdn_ip@);
        s
    } else {
        config.cdn_url.clone()
    };
    let parts = match parse_url(cdn_url.as_str()) {
        Ok(parts) => parts,
        Err(e) => {
            return Err(Error::from(DeserializedError::ParseUrl(e)));
        },
    };
    let cdn_domain = match &parts.domain {
        Some(d) => d.clone(),
        None => {
            if config.cdn_url.as_str().is_empty() {
                cdn_ip.to_owned()
            } else {
                return Err(
                    Error::from(DeserializedError::custom("Url must have domain, not IP")),
                );
            }
        },
    };
    if !same_text(parts.scheme.as_str(), "http") && !same_text(parts.scheme.as_str(), "https") {
        return Err(Error::from(DeserializedError::custom("Url scheme must be http or https")));
    }
    let cdn_port = match parts.port {
        Some(p) => p,
        None => vstd::pervasive::unreached(),
    };
    Ok(
        ProbePlan {
            proxy,
            server_url: config.server_url.clone(),
            cdn_url,
            cdn_domain,
            cdn_port,
        },
    )
}

} // verus!
