//! Addresses and address blocks as plain integers.
//!
//! An address of either family is held as an unsigned integer below
//! `2^bits`, so that the nth address of a block is one addition whatever the
//! family. Text is read and written by the `cidr` crate.

use std::str::FromStr;
use vstd::arithmetic::div_mod::{lemma_fundamental_div_mod, lemma_mod_multiples_basic};
use vstd::arithmetic::power2::{
    lemma2_to64,
    lemma_pow2_adds,
    lemma_pow2_pos,
    lemma_pow2_strictly_increases,
    lemma_pow2_unfold,
    pow2,
};
use vstd::prelude::*;

verus! {

/// Address family.
#[derive(Debug, Clone, Copy, PartialEq, Eq, Structural)]
pub enum Family {
    Ipv4,
    Ipv6,
}

impl Family {
    /// Width of an address of this family, in bits.
    pub open spec fn bits(self) -> nat {
        match self {
            Family::Ipv4 => 32,
            Family::Ipv6 => 128,
        }
    }

    /// Number of addresses of this family.
    pub open spec fn space(self) -> nat {
        pow2(self.bits())
    }

    /// Width of an address of this family, in bits.
    pub fn len(&self) -> (n: u8)
        ensures
            n == self.bits(),
    {
        match self {
            Family::Ipv4 => 32,
            Family::Ipv6 => 128,
        }
    }
}

/// The value of `2^128`, and of the powers below it that the proofs name.
pub proof fn lemma_pow2_128()
    ensures
        pow2(32) == 0x1_0000_0000,
        pow2(64) == 0x1_0000_0000_0000_0000,
        pow2(127) == 0x8000_0000_0000_0000_0000_0000_0000_0000,
        pow2(128) == 0x1_0000_0000_0000_0000_0000_0000_0000_0000,
{
    lemma2_to64();
    lemma_pow2_adds(64, 64);
    lemma_pow2_unfold(128);
    assert(pow2(64) * pow2(64) == 0x1_0000_0000_0000_0000_0000_0000_0000_0000) by (nonlinear_arith)
        requires
            pow2(64) == 0x1_0000_0000_0000_0000,
    ;
}

/// A remainder is at most what was divided.
pub proof fn lemma_mod_le(a: int, c: int)
    requires
        a >= 0,
        c > 0,
    ensures
        0 <= a % c <= a,
        a % c < c,
        (a - a % c) % c == 0,
{
    vstd::arithmetic::div_mod::lemma_mod_bound(a, c);
    lemma_fundamental_div_mod(a, c);
    vstd::arithmetic::div_mod::lemma_div_pos_is_pos(a, c);
    let q = a / c;
    assert(c * q >= 0) by (nonlinear_arith)
        requires
            c > 0,
            q >= 0,
    ;
    assert(a - a % c == q * c) by (nonlinear_arith)
        requires
            a == c * q + a % c,
    ;
    lemma_mod_multiples_basic(q, c);
}

/// `2^k` for an exponent below 128.
pub fn pow2_u128(k: u8) -> (r: u128)
    requires
        k < 128,
    ensures
        r == pow2(k as nat),
{
    let mut r: u128 = 1;
    let mut i: u8 = 0;
    proof {
        lemma2_to64();
    }
    while i < k
        invariant
            i <= k,
            k < 128,
            r == pow2(i as nat),
        decreases k - i,
    {
        proof {
            lemma_pow2_unfold((i + 1) as nat);
            lemma_pow2_128();
            if i + 1 < 127 {
                lemma_pow2_strictly_increases((i + 1) as nat, 127);
            }
        }
        r = r * 2;
        i = i + 1;
    }
    r
}

/// A host address together with the prefix length of the network it was
/// taken from.
#[derive(Debug, Clone, Copy, PartialEq, Eq, Structural)]
pub struct IpInet {
    pub family: Family,
    pub address: u128,
    pub network_length: u8,
}

/// A network: a block of `2^(bits - network_length)` addresses that starts at
/// `address`.
#[derive(Debug, Clone, Copy, PartialEq, Eq, Structural)]
pub struct IpCidr {
    pub family: Family,
    pub address: u128,
    pub network_length: u8,
}

impl IpInet {
    /// The prefix fits the family and the address lies in its space.
    pub open spec fn wf(self) -> bool {
        &&& self.network_length <= self.family.bits()
        &&& self.address < self.family.space()
    }

    /// Number of addresses in the network of this host.
    pub open spec fn capacity(self) -> nat {
        pow2((self.family.bits() - self.network_length) as nat)
    }

    /// The network of this host: the host bits set to zero.
    pub open spec fn spec_network(self) -> IpCidr {
        IpCidr {
            family: self.family,
            address: (self.address - (self.address as int) % (self.capacity() as int)) as u128,
            network_length: self.network_length,
        }
    }

    /// The host of these parts, if they make a well-formed one.
    pub fn new(family: Family, address: u128, network_length: u8) -> (r: Option<Self>)
        ensures
            r == (if (IpInet { family, address, network_length }).wf() {
                Some(IpInet { family, address, network_length })
            } else {
                None
            }),
    {
        proof {
            lemma_pow2_128();
        }
        let fits = match family {
            Family::Ipv4 => address <= 0xffff_ffff,
            Family::Ipv6 => true,
        };
        if network_length <= family.len() && fits {
            Some(IpInet { family, address, network_length })
        } else {
            None
        }
    }

    /// Whether the prefix fits the family and the address lies in its space.
    pub fn is_wf(&self) -> (r: bool)
        ensures
            r == self.wf(),
    {
        IpInet::new(self.family, self.address, self.network_length).is_some()
    }

    /// The network of this host.
    pub fn network(&self) -> (c: IpCidr)
        requires
            self.wf(),
        ensures
            c == self.spec_network(),
            c.wf(),
            c.covers(*self),
    {
        let host_bits: u8 = self.family.len() - self.network_length;
        proof {
            lemma_pow2_128();
            lemma_pow2_pos(host_bits as nat);
        }
        if host_bits == 128 {
            proof {
                vstd::arithmetic::div_mod::lemma_small_mod(self.address as nat, pow2(128));
                lemma_pow2_pos(0);
            }
            IpCidr { family: self.family, address: 0, network_length: self.network_length }
        } else {
            let cap = pow2_u128(host_bits);
            proof {
                lemma_mod_le(self.address as int, cap as int);
            }
            let first = self.address - self.address % cap;
            IpCidr { family: self.family, address: first, network_length: self.network_length }
        }
    }
}

impl IpCidr {
    /// The prefix fits the family, the first address lies in its space and
    /// has no host bit set.
    pub open spec fn wf(self) -> bool {
        &&& self.network_length <= self.family.bits()
        &&& self.address < self.family.space()
        &&& (self.address as int) % (self.capacity() as int) == 0
    }

    /// Number of addresses in the block.
    pub open spec fn capacity(self) -> nat {
        pow2((self.family.bits() - self.network_length) as nat)
    }

    /// The address at offset `idx` from the start of the block.
    pub open spec fn nth(self, idx: nat) -> IpInet {
        IpInet {
            family: self.family,
            address: (self.address + idx) as u128,
            network_length: self.network_length,
        }
    }

    /// `inet` is an address of this block, taken with this block's prefix.
    pub open spec fn covers(self, inet: IpInet) -> bool {
        &&& inet.family == self.family
        &&& inet.network_length == self.network_length
        &&& self.address <= inet.address < self.address + self.capacity()
    }

    /// The network of these parts, if they make a well-formed one.
    pub fn new(family: Family, address: u128, network_length: u8) -> (r: Option<Self>)
        ensures
            r == (if (IpCidr { family, address, network_length }).wf() {
                Some(IpCidr { family, address, network_length })
            } else {
                None
            }),
    {
        match IpInet::new(family, address, network_length) {
            None => None,
            Some(inet) => {
                let c = inet.network();
                if c.address == address {
                    Some(c)
                } else {
                    proof {
                        let cand = IpCidr { family, address, network_length };
                        if cand.wf() {
                            assert((inet.address as int) % (inet.capacity() as int) == 0);
                        }
                    }
                    None
                }
            },
        }
    }

    /// Whether the prefix fits the family, the first address lies in its
    /// space and has no host bit set.
    pub fn is_wf(&self) -> (r: bool)
        ensures
            r == self.wf(),
    {
        IpCidr::new(self.family, self.address, self.network_length).is_some()
    }

    /// Number of host bits.
    pub fn host_bits(&self) -> (n: u8)
        requires
            self.wf(),
        ensures
            n == self.family.bits() - self.network_length,
            self.capacity() == pow2(n as nat),
    {
        self.family.len() - self.network_length
    }

    /// The block ends inside the address space: offsets below the capacity
    /// give addresses of the family.
    pub proof fn lemma_block_in_space(self)
        requires
            self.wf(),
        ensures
            self.address + self.capacity() <= self.family.space(),
            self.family.space() <= 0x1_0000_0000_0000_0000_0000_0000_0000_0000,
            self.capacity() > 0,
    {
        let h = (self.family.bits() - self.network_length) as nat;
        let p = self.network_length as nat;
        let cap = pow2(h) as int;
        let total = self.family.space() as int;
        let base = self.address as int;
        lemma_pow2_128();
        lemma_pow2_pos(h);
        lemma_pow2_pos(p);
        lemma_pow2_adds(h, p);
        assert(h + p == self.family.bits());
        let q = base / cap;
        lemma_fundamental_div_mod(base, cap);
        assert(base == cap * q);
        let n = pow2(p) as int;
        assert(base + cap <= total) by (nonlinear_arith)
            requires
                base == cap * q,
                total == cap * n,
                base < total,
                cap > 0,
        ;
    }

    /// Number of addresses in the block, where that fits the machine word.
    pub fn len(&self) -> (n: usize)
        requires
            self.wf(),
            self.capacity() <= usize::MAX,
        ensures
            n == self.capacity(),
    {
        let h = self.host_bits();
        proof {
            lemma_pow2_128();
            if h < 128 {
                lemma_pow2_strictly_increases(h as nat, 128);
            }
        }
        let cap = pow2_u128(h);
        cap as usize
    }

    /// Number of addresses in the block, or `limit` where that is less.
    pub fn len_capped(&self, limit: usize) -> (n: usize)
        requires
            self.wf(),
        ensures
            n == vstd::math::min(self.capacity() as int, limit as int),
    {
        let h = self.host_bits();
        proof {
            lemma_pow2_128();
            if h > 64 {
                lemma_pow2_strictly_increases(64, h as nat);
            }
        }
        if h >= 64 {
            limit
        } else {
            let cap = pow2_u128(h);
            if cap > limit as u128 {
                limit
            } else {
                cap as usize
            }
        }
    }

    /// The address at offset `idx`, or `None` at and behind the end of the
    /// block.
    pub fn get_ip(&self, idx: usize) -> (r: Option<IpInet>)
        requires
            self.wf(),
        ensures
            r == (if idx < self.capacity() {
                Some(self.nth(idx as nat))
            } else {
                None
            }),
            r matches Some(inet) ==> inet.wf() && self.covers(inet),
    {
        let h = self.host_bits();
        proof {
            lemma_pow2_128();
            if h > 64 {
                lemma_pow2_strictly_increases(64, h as nat);
            }
            self.lemma_block_in_space();
        }
        if h < 64 {
            let cap = pow2_u128(h);
            if idx as u128 >= cap {
                return None;
            }
        }
        Some(
            IpInet {
                family: self.family,
                address: self.address + idx as u128,
                network_length: self.network_length,
            },
        )
    }
}

/// A network and the hosts it covers determine each other: the network of a
/// host that a block covers is that block.
pub proof fn lemma_network_of_covered(c: IpCidr, inet: IpInet)
    requires
        c.wf(),
        inet.wf(),
    ensures
        c.covers(inet) <==> inet.spec_network() == c,
{
    let h = (c.family.bits() - c.network_length) as nat;
    lemma_pow2_pos(h);
    lemma_pow2_128();
    if c.covers(inet) {
        let cap = pow2(h) as int;
        let base = c.address as int;
        let a = inet.address as int;
        let q = base / cap;
        lemma_fundamental_div_mod(base, cap);
        assert(base == q * cap) by (nonlinear_arith)
            requires
                base == cap * q,
        ;
        vstd::arithmetic::div_mod::lemma_fundamental_div_mod_converse(a, cap, q, a - base);
    }
    if inet.spec_network() == c {
        lemma_mod_le(inet.address as int, inet.capacity() as int);
    }
}

/// Why the `cidr` crate refused a text.
#[verifier::external_type_specification]
#[verifier::external_body]
pub struct ExNetworkParseError(cidr::errors::NetworkParseError);

/// What `cidr::IpCidr::from_str` makes of a text: the network, or `None`
/// where it refuses the text.
pub uninterp spec fn cidr_parse_of(text: Seq<char>) -> Option<IpCidr>;

/// What `cidr::IpInet::from_str` makes of a text: the host and its prefix, or
/// `None` where it refuses the text.
pub uninterp spec fn inet_parse_of(text: Seq<char>) -> Option<IpInet>;

/// The text that `cidr::IpInet` writes in its alternate form, which always
/// ends in a slash and the prefix length.
pub uninterp spec fn inet_text_of(inet: IpInet) -> Seq<char>;

/// The text of the address alone, as `std` writes it.
pub uninterp spec fn address_text_of(inet: IpInet) -> Seq<char>;

/// Calls `cidr::IpCidr::from_str`. The crate accepts a text only as a
/// network whose prefix fits the family and whose host bits are zero, which
/// is all that is claimed of an accepted text beyond its name.
#[verifier::external_body]
pub(crate) fn parse_cidr(s: &str) -> (r: Result<IpCidr, cidr::errors::NetworkParseError>)
    ensures
        match r {
            Ok(c) => cidr_parse_of(s@) == Some(c) && c.wf(),
            Err(_) => cidr_parse_of(s@) is None,
        },
{
    let (family, address, network_length) = match cidr::IpCidr::from_str(s)? {
        cidr::IpCidr::V4(c) => (Family::Ipv4, u32::from(c.first_address()) as u128, c.network_length()),
        cidr::IpCidr::V6(c) => (Family::Ipv6, u128::from(c.first_address()), c.network_length()),
    };
    Ok(IpCidr { family, address, network_length })
}

/// Calls `cidr::IpInet::from_str`. The crate accepts a text only with a
/// prefix that fits the family, which is all that is claimed of an accepted
/// text beyond its name.
#[verifier::external_body]
pub(crate) fn parse_inet(s: &str) -> (r: Result<IpInet, cidr::errors::NetworkParseError>)
    ensures
        match r {
            Ok(i) => inet_parse_of(s@) == Some(i) && i.wf(),
            Err(_) => inet_parse_of(s@) is None,
        },
{
    let (family, address, network_length) = match cidr::IpInet::from_str(s)? {
        cidr::IpInet::V4(i) => (Family::Ipv4, u32::from(i.address()) as u128, i.network_length()),
        cidr::IpInet::V6(i) => (Family::Ipv6, u128::from(i.address()), i.network_length()),
    };
    Ok(IpInet { family, address, network_length })
}

/// Writes a host with its prefix through `cidr::IpInet`'s alternate
/// `Display` form.
#[verifier::external_body]
pub(crate) fn inet_text(inet: &IpInet) -> (s: String)
    requires
        inet.wf(),
    ensures
        s@ == inet_text_of(*inet),
{
    let len = inet.network_length;
    let made = match inet.family {
        Family::Ipv4 => cidr::IpInet::new((inet.address as u32).to_be_bytes().into(), len),
        Family::Ipv6 => cidr::IpInet::new(inet.address.to_be_bytes().into(), len),
    };
    match made {
        Ok(i) => format!("{:#}", i),
        Err(_) => String::new(),
    }
}

/// Writes the address of a host through `cidr::IpInet::address` and the
/// `Display` form that `std` gives an address.
#[verifier::external_body]
pub(crate) fn address_text(inet: &IpInet) -> (s: String)
    requires
        inet.wf(),
    ensures
        s@ == address_text_of(*inet),
{
    let len = inet.network_length;
    let made = match inet.family {
        Family::Ipv4 => cidr::IpInet::new((inet.address as u32).to_be_bytes().into(), len),
        Family::Ipv6 => cidr::IpInet::new(inet.address.to_be_bytes().into(), len),
    };
    match made {
        Ok(i) => i.address().to_string(),
        Err(_) => String::new(),
    }
}

impl IpCidr {
    /// Reads a network from text such as `10.0.0.0/8`.
    pub fn from_str(s: &str) -> (r: Result<IpCidr, cidr::errors::NetworkParseError>)
        ensures
            match r {
                Ok(c) => cidr_parse_of(s@) == Some(c) && c.wf(),
                Err(_) => cidr_parse_of(s@) is None,
            },
    {
        parse_cidr(s)
    }
}

impl IpInet {
    /// Reads a host and its prefix from text such as `10.1.2.3/8`.
    pub fn from_str(s: &str) -> (r: Result<IpInet, cidr::errors::NetworkParseError>)
        ensures
            match r {
                Ok(i) => inet_parse_of(s@) == Some(i) && i.wf(),
                Err(_) => inet_parse_of(s@) is None,
            },
    {
        parse_inet(s)
    }

    /// The host with its prefix as text, such as `10.1.2.3/8`.
    pub fn to_text(&self) -> (s: String)
        requires
            self.wf(),
        ensures
            s@ == inet_text_of(*self),
    {
        inet_text(self)
    }

    /// The address alone as text, such as `10.1.2.3`.
    pub fn address_string(&self) -> (s: String)
        requires
            self.wf(),
        ensures
            s@ == address_text_of(*self),
    {
        address_text(self)
    }
}

} // verus!
