//! Address ranges, and how they are found in free-form text.

use crate::error::{DeserializedError, Error, ErrorKind};
use crate::inet::{cidr_parse_of, IpCidr, IpInet};
use crate::inet_map::InetMap;
use vstd::prelude::*;

verus! {

/// A value that can be read from text.
pub trait Loadable<T> {
    /// Reads the value from its text.
    fn from_str(s: &str) -> Result<T, Error>;
}

/// A value that can be written as text.
pub trait Savable {
    /// The value is in a state that can be written.
    spec fn savable(&self) -> bool;

    /// The text of the value.
    fn to_string(&self) -> Result<String, Error>
        requires
            self.savable(),
    ;
}

/// The pattern of an IPv4 network in text: four groups of one to three
/// digits with dots between, a slash, and one to three digits.
pub const V4_SUBNET_PATTERN: &'static str = r"(\d{1,3}\.\d{1,3}\.\d{1,3}\.\d{1,3}/\d{1,3})";

/// An address range of the scan. A range is enabled once one of its
/// addresses has answered.
#[derive(Debug, Clone, Copy, PartialEq, Eq, Structural)]
pub struct Subnet {
    pub cidr: IpCidr,
    pub enable: bool,
}

impl Subnet {
    /// The offset up to which every range is probed, unless told otherwise.
    pub const ENABLE_THRESHOLD: usize = 10;

    /// The range is a well-formed network.
    pub open spec fn wf(self) -> bool {
        self.cidr.wf()
    }

    /// Reads a range from text such as `10.0.0.0/8`. A range starts out
    /// disabled.
    pub fn from_str(s: &str) -> (r: Result<Subnet, cidr::errors::NetworkParseError>)
        ensures
            match r {
                Ok(subnet) => cidr_parse_of(s@) == Some(subnet.cidr) && !subnet.enable
                    && subnet.wf(),
                Err(_) => cidr_parse_of(s@) is None,
            },
    {
        match IpCidr::from_str(s) {
            Ok(cidr) => Ok(Subnet { cidr, enable: false }),
            Err(e) => Err(e),
        }
    }

    /// Number of addresses in the range, where that fits the machine word.
    pub fn len(&self) -> (n: usize)
        requires
            self.wf(),
            self.cidr.capacity() <= usize::MAX,
        ensures
            n == self.cidr.capacity(),
    {
        self.cidr.len()
    }

    /// Number of addresses in the range, or `limit` where that is less.
    pub fn len_capped(&self, limit: usize) -> (n: usize)
        requires
            self.wf(),
        ensures
            n == vstd::math::min(self.cidr.capacity() as int, limit as int),
    {
        self.cidr.len_capped(limit)
    }

    /// The address at offset `idx` of the range, or `None` at and behind its
    /// end.
    pub fn get_ip(&self, idx: usize) -> (r: Option<IpInet>)
        requires
            self.wf(),
        ensures
            r == (if idx < self.cidr.capacity() {
                Some(self.cidr.nth(idx as nat))
            } else {
                None
            }),
            r matches Some(inet) ==> inet.wf() && self.cidr.covers(inet),
    {
        self.cidr.get_ip(idx)
    }
}

impl std::str::FromStr for Subnet {
    type Err = cidr::errors::NetworkParseError;

    /// Reads a range from text such as `10.0.0.0/8`, as [`Subnet::from_str`]
    /// does: the range is the network that the `cidr` crate makes of the
    /// text, and starts out disabled; a text that the crate refuses gives
    /// its error.
    fn from_str(s: &str) -> (r: Result<Self, Self::Err>)
        ensures
            match r {
                Ok(subnet) => cidr_parse_of(s@) == Some(subnet.cidr) && !subnet.enable
                    && subnet.wf(),
                Err(_) => cidr_parse_of(s@) is None,
            },
    {
        Subnet::from_str(s)
    }
}

/// What the `regex` crate finds of a pattern in a text: the matches that do
/// not overlap, from left to right, or `None` where it refuses the pattern.
pub uninterp spec fn regex_matches_of(pattern: Seq<char>, text: Seq<char>) -> Option<
    Seq<Seq<char>>,
>;

/// Compiles `pattern` with `regex::Regex::new` and walks `text` with
/// `captures_iter`, taking the whole of each match.
#[verifier::external_body]
fn regex_find_all(pattern: &str, text: &str) -> (r: Option<Vec<String>>)
    ensures
        match r {
            Some(found) => regex_matches_of(pattern@, text@) == Some(
                found@.map_values(|m: String| m@),
            ),
            None => regex_matches_of(pattern@, text@) is None,
        },
{
    let re = regex::Regex::new(pattern).ok()?;
    Some(re.captures_iter(text).map(|cap| cap[0].to_string()).collect())
}

/// The networks that the tokens name, each once, as they first occur. A
/// token that names no network is passed over.
pub open spec fn networks_of(tokens: Seq<Seq<char>>) -> Seq<IpCidr>
    decreases tokens.len(),
{
    if tokens.len() == 0 {
        Seq::<IpCidr>::empty()
    } else {
        let head = networks_of(tokens.drop_last());
        match cidr_parse_of(tokens.last()) {
            Some(c) => if head.contains(c) {
                head
            } else {
                head.push(c)
            },
            None => head,
        }
    }
}

/// The tokens that name no network, as they occur.
pub open spec fn rejected_of(tokens: Seq<Seq<char>>) -> Seq<Seq<char>>
    decreases tokens.len(),
{
    if tokens.len() == 0 {
        Seq::<Seq<char>>::empty()
    } else {
        let head = rejected_of(tokens.drop_last());
        match cidr_parse_of(tokens.last()) {
            Some(c) => head,
            None => head.push(tokens.last()),
        }
    }
}

/// What was found in a text: the ranges, and the tokens that looked like a
/// range and were refused.
#[derive(Debug)]
pub struct SubnetScan {
    pub subnets: Vec<Subnet>,
    pub rejected: Vec<String>,
}

impl SubnetScan {
    /// The networks of the ranges.
    pub open spec fn networks(self) -> Seq<IpCidr> {
        self.subnets@.map_values(|s: Subnet| s.cidr)
    }

    /// The ranges are well formed, disabled, and no two of them are the
    /// same network.
    pub open spec fn wf(self) -> bool {
        &&& forall|i: int|
            0 <= i < self.subnets.len() ==> (#[trigger] self.subnets[i]).wf()
                && !self.subnets[i].enable
        &&& self.networks().no_duplicates()
    }
}

/// The key under which a network is looked up.
pub open spec fn lookup_key(c: IpCidr) -> IpInet {
    IpInet { family: c.family, address: c.address, network_length: c.network_length }
}

/// Finds the ranges in a text. Every piece of the text that has the shape of
/// an IPv4 network is read on its own; a piece that is no network is set
/// aside and the rest is still read. A network that occurs twice is taken
/// once.
pub fn scan_subnets(s: &str) -> (r: Option<SubnetScan>)
    ensures
        match r {
            Some(scan) => regex_matches_of(V4_SUBNET_PATTERN@, s@) matches Some(tokens)
                && scan.networks() == networks_of(tokens) && scan.wf() && scan.rejected@.map_values(
                |m: String| m@,
            ) == rejected_of(tokens),
            None => regex_matches_of(V4_SUBNET_PATTERN@, s@) is None,
        },
{
    let found = match regex_find_all(V4_SUBNET_PATTERN, s) {
        Some(found) => found,
        None => {
            return None;
        },
    };
    let ghost tokens = found@.map_values(|m: String| m@);
    let mut subnets: Vec<Subnet> = Vec::new();
    let mut rejected: Vec<String> = Vec::new();
    let mut seen: InetMap<bool> = InetMap::new();
    let mut i: usize = 0;
    while i < found.len()
        invariant
            i <= found.len(),
            tokens == found@.map_values(|m: String| m@),
            subnets@.map_values(|s: Subnet| s.cidr) == networks_of(tokens.take(i as int)),
            rejected@.map_values(|m: String| m@) == rejected_of(tokens.take(i as int)),
            forall|p: int|
                0 <= p < subnets.len() ==> (#[trigger] subnets[p]).wf() && !subnets[p].enable,
            subnets@.map_values(|s: Subnet| s.cidr).no_duplicates(),
            seen.wf(),
            seen@.len() <= i,
            forall|c: IpCidr| #[trigger]
                seen@.contains_key(lookup_key(c)) <==> subnets@.map_values(
                    |s: Subnet| s.cidr,
                ).contains(c),
        decreases found.len() - i,
    {
        let ghost before = subnets@.map_values(|s: Subnet| s.cidr);
        let ghost before_rejected = rejected@.map_values(|m: String| m@);
        proof {
            let next = tokens.take(i + 1);
            assert(next.drop_last() =~= tokens.take(i as int));
            assert(next.last() == found[i as int]@);
            seen.lemma_wf();
        }
        match Subnet::from_str(found[i].as_str()) {
            Ok(subnet) => {
                let key = IpInet {
                    family: subnet.cidr.family,
                    address: subnet.cidr.address,
                    network_length: subnet.cidr.network_length,
                };
                if !seen.contains_key(&key) {
                    seen.insert(key, true);
                    subnets.push(subnet);
                    proof {
                        let after = subnets@.map_values(|s: Subnet| s.cidr);
                        assert(after =~= before.push(subnet.cidr));
                        assert forall|c: IpCidr| #[trigger]
                            seen@.contains_key(lookup_key(c)) <==> after.contains(c) by {
                            if before.contains(c) {
                                let p = choose|p: int| 0 <= p < before.len() && before[p] == c;
                                assert(after[p] == c);
                            }
                            if c == subnet.cidr {
                                assert(after[before.len() as int] == c);
                            }
                            if after.contains(c) {
                                let p = choose|p: int| 0 <= p < after.len() && after[p] == c;
                                if p < before.len() {
                                    assert(before[p] == c);
                                }
                            }
                        }
                        assert(!before.contains(subnet.cidr));
                        assert forall|p: int, q: int|
                            0 <= p < after.len() && 0 <= q < after.len() && p != q implies after[p]
                            != after[q] by {
                            if p < before.len() && q < before.len() {
                                assert(before[p] != before[q]);
                            } else if p < before.len() {
                                assert(before.contains(before[p]));
                            } else {
                                assert(before.contains(before[q]));
                            }
                        }
                    }
                } else {
                    proof {
                        assert(seen@.contains_key(lookup_key(subnet.cidr)));
                    }
                }
            },
            Err(_) => {
                rejected.push(found[i].clone());
                proof {
                    let after = rejected@.map_values(|m: String| m@);
                    assert(after =~= before_rejected.push(found[i as int]@));
                }
            },
        }
        i = i + 1;
    }
    proof {
        assert(tokens.take(i as int) =~= tokens);
    }
    Some(SubnetScan { subnets, rejected })
}

impl Loadable<Self> for Vec<Subnet> {
    /// The ranges found in a text. See [`scan_subnets`].
    fn from_str(s: &str) -> (r: Result<Self, Error>)
        ensures
            match r {
                Ok(subnets) => regex_matches_of(V4_SUBNET_PATTERN@, s@) matches Some(tokens)
                    && subnets@.map_values(|s: Subnet| s.cidr) == networks_of(tokens) && forall|
                    i: int,
                |
                    0 <= i < subnets.len() ==> (#[trigger] subnets[i]).wf() && !subnets[i].enable,
                Err(e) => regex_matches_of(V4_SUBNET_PATTERN@, s@) is None && e.kind() matches ErrorKind::Deserialized(
                    DeserializedError::Custom(_),
                ),
            },
    {
        match scan_subnets(s) {
            Some(scan) => Ok(scan.subnets),
            None => Err(Error::from(DeserializedError::custom("the pattern of a range was refused"))),
        }
    }
}

} // verus!
