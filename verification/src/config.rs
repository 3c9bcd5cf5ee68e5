//! Settings of the probes and of the scan.

use vstd::prelude::*;

verus! {

/// What the settings file holds.
#[derive(Debug, Clone)]
pub struct Config {
    /// The first local port; batch member `i` listens on `port_base + i`.
    pub port_base: u16,
    /// Most addresses probed at one time.
    pub max_connection_count: usize,
    /// The reference endpoint, reached through the tunnel.
    pub server_url: String,
    /// The endpoint asked of each candidate, or empty to ask the candidate
    /// by its own address.
    pub cdn_url: String,
    /// Where the local listeners stand.
    pub listen_ip: String,
    /// The time after which a leg is given up, in milliseconds.
    pub max_rtt: u64,
    /// What the body of the reference endpoint's answer must hold.
    pub server_res_body: String,
    /// What the body of a candidate's answer must hold.
    pub cdn_res_body: String,
    /// Most offsets scanned of any range.
    pub max_subnet_len: usize,
    /// The offset up to which every range is probed.
    pub enable_threshold: usize,
}

impl Default for Config {
    fn default() -> (r: Self)
        ensures
            r.port_base == 31000,
            r.max_connection_count == 50,
            r.server_url@ == "http://127.0.0.1/"@,
            r.cdn_url@ == "http://archlinux.cloudflaremirrors.com"@,
            r.listen_ip@ == "127.0.0.2"@,
            r.max_rtt == 1000,
            r.server_res_body@ == ""@,
            r.cdn_res_body@ == "archlinux"@,
            r.max_subnet_len == usize::MAX,
            r.enable_threshold == 10,
    {
        Config {
            port_base: 31000,
            max_connection_count: 50,
            server_url: "http://127.0.0.1/".to_owned(),
            cdn_url: "http://archlinux.cloudflaremirrors.com".to_owned(),
            listen_ip: "127.0.0.2".to_owned(),
            max_rtt: 1000,
            server_res_body: "".to_owned(),
            cdn_res_body: "archlinux".to_owned(),
            max_subnet_len: usize::MAX,
            enable_threshold: 10,
        }
    }
}

} // verus!
