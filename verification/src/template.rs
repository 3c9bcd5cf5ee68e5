//! The entries that a batch adds to the configuration of the tunnel process:
//! for member `i` of the batch a local listener `inbound-i` on port
//! `port_base + i`, an outbound `outbound-i` to the member's address, and a
//! rule that routes the one to the other.

use crate::decimal::{decimal_chars, decimal_text};
use crate::text::push_chars;
use vstd::prelude::*;
use vstd::string::StringExecFns;

verus! {

/// A local listener.
#[derive(Debug, Clone)]
pub struct Inbound {
    pub kind: String,
    pub tag: String,
    pub listen: String,
    pub listen_port: u16,
    pub tcp_fast_open: bool,
    pub users: Vec<String>,
}

/// A local listener as plain values.
pub struct InboundView {
    pub kind: Seq<char>,
    pub tag: Seq<char>,
    pub listen: Seq<char>,
    pub listen_port: u16,
    pub tcp_fast_open: bool,
    pub users: Seq<Seq<char>>,
}

impl View for Inbound {
    type V = InboundView;

    open spec fn view(&self) -> InboundView {
        InboundView {
            kind: self.kind@,
            tag: self.tag@,
            listen: self.listen@,
            listen_port: self.listen_port,
            tcp_fast_open: self.tcp_fast_open,
            users: self.users@.map_values(|u: String| u@),
        }
    }
}

/// The listener that a batch member gets: a SOCKS listener without users.
pub open spec fn socks_inbound(tag: Seq<char>, listen: Seq<char>, listen_port: u16) -> InboundView {
    InboundView {
        kind: "socks"@,
        tag,
        listen,
        listen_port,
        tcp_fast_open: true,
        users: Seq::<Seq<char>>::empty(),
    }
}

/// A copy of some texts.
fn copy_strings(v: &Vec<String>) -> (r: Vec<String>)
    ensures
        r@.map_values(|u: String| u@) == v@.map_values(|u: String| u@),
{
    let mut r: Vec<String> = Vec::new();
    let mut i: usize = 0;
    while i < v.len()
        invariant
            i <= v.len(),
            r@.map_values(|u: String| u@) == v@.map_values(|u: String| u@).take(i as int),
        decreases v.len() - i,
    {
        let ghost before = r@.map_values(|u: String| u@);
        r.push(v[i].clone());
        proof {
            let all = v@.map_values(|u: String| u@);
            assert(r@.map_values(|u: String| u@) =~= before.push(v[i as int]@));
            assert(all.take(i + 1) =~= all.take(i as int).push(v[i as int]@));
        }
        i = i + 1;
    }
    proof {
        let all = v@.map_values(|u: String| u@);
        assert(all.take(i as int) =~= all);
    }
    r
}

impl Inbound {
    /// A SOCKS listener without users.
    pub fn new(tag: String, listen: String, listen_port: u16) -> (r: Self)
        ensures
            r@ == socks_inbound(tag@, listen@, listen_port),
    {
        let r = Inbound {
            kind: "socks".to_owned(),
            tag,
            listen,
            listen_port,
            tcp_fast_open: true,
            users: Vec::new(),
        };
        assert(r.users@.map_values(|u: String| u@) =~= Seq::<Seq<char>>::empty());
        r
    }

    /// A copy of this listener.
    pub fn duplicate(&self) -> (r: Self)
        ensures
            r@ == self@,
    {
        Inbound {
            kind: self.kind.clone(),
            tag: self.tag.clone(),
            listen: self.listen.clone(),
            listen_port: self.listen_port,
            tcp_fast_open: self.tcp_fast_open,
            users: copy_strings(&self.users),
        }
    }
}

/// An outbound: its tag, the server it leads to, and its other settings,
/// each a name with its value as text.
#[derive(Debug, Clone)]
pub struct Outbound {
    pub tag: Option<String>,
    pub server: Option<String>,
    pub other: Vec<(String, String)>,
}

/// An outbound as plain values.
pub struct OutboundView {
    pub tag: Option<Seq<char>>,
    pub server: Option<Seq<char>>,
    pub other: Seq<(Seq<char>, Seq<char>)>,
}

impl View for Outbound {
    type V = OutboundView;

    open spec fn view(&self) -> OutboundView {
        OutboundView {
            tag: match self.tag {
                Some(t) => Some(t@),
                None => None,
            },
            server: match self.server {
                Some(s) => Some(s@),
                None => None,
            },
            other: self.other@.map_values(|p: (String, String)| (p.0@, p.1@)),
        }
    }
}

/// A copy of some settings.
fn copy_settings(v: &Vec<(String, String)>) -> (r: Vec<(String, String)>)
    ensures
        r@.map_values(|p: (String, String)| (p.0@, p.1@)) == v@.map_values(
            |p: (String, String)| (p.0@, p.1@),
        ),
{
    let mut r: Vec<(String, String)> = Vec::new();
    let mut i: usize = 0;
    while i < v.len()
        invariant
            i <= v.len(),
            r@.map_values(|p: (String, String)| (p.0@, p.1@)) == v@.map_values(
                |p: (String, String)| (p.0@, p.1@),
            ).take(i as int),
        decreases v.len() - i,
    {
        let ghost before = r@.map_values(|p: (String, String)| (p.0@, p.1@));
        r.push((v[i].0.clone(), v[i].1.clone()));
        proof {
            let all = v@.map_values(|p: (String, String)| (p.0@, p.1@));
            assert(r@.map_values(|p: (String, String)| (p.0@, p.1@)) =~= before.push(
                (v[i as int].0@, v[i as int].1@),
            ));
            assert(all.take(i + 1) =~= all.take(i as int).push((v[i as int].0@, v[i as int].1@)));
        }
        i = i + 1;
    }
    proof {
        let all = v@.map_values(|p: (String, String)| (p.0@, p.1@));
        assert(all.take(i as int) =~= all);
    }
    r
}

impl Outbound {
    /// The outbound of a batch member: this one with the tag and the server
    /// set, and its other settings as they are.
    pub fn generate(&self, tag: String, server: String) -> (r: Self)
        ensures
            r@ == (OutboundView { tag: Some(tag@), server: Some(server@), other: self@.other }),
    {
        Outbound { tag: Some(tag), server: Some(server), other: copy_settings(&self.other) }
    }

    /// A copy of this outbound.
    pub fn duplicate(&self) -> (r: Self)
        ensures
            r@ == self@,
    {
        Outbound {
            tag: match &self.tag {
                Some(t) => Some(t.clone()),
                None => None,
            },
            server: match &self.server {
                Some(s) => Some(s.clone()),
                None => None,
            },
            other: copy_settings(&self.other),
        }
    }
}

/// A rule that routes what comes in at some listeners to an outbound.
#[derive(Debug, Clone)]
pub struct Rule {
    pub inbound: Vec<String>,
    pub outbound: String,
}

/// A rule as plain values.
pub struct RuleView {
    pub inbound: Seq<Seq<char>>,
    pub outbound: Seq<char>,
}

impl View for Rule {
    type V = RuleView;

    open spec fn view(&self) -> RuleView {
        RuleView { inbound: self.inbound@.map_values(|t: String| t@), outbound: self.outbound@ }
    }
}

impl Rule {
    /// The rule that routes one listener to one outbound.
    pub fn new(inbound: String, outbound: String) -> (r: Self)
        ensures
            r@ == (RuleView { inbound: seq![inbound@], outbound: outbound@ }),
    {
        let mut tags: Vec<String> = Vec::new();
        tags.push(inbound);
        let r = Rule { inbound: tags, outbound };
        assert(r.inbound@.map_values(|t: String| t@) =~= seq![inbound@]);
        r
    }

    /// A copy of this rule.
    pub fn duplicate(&self) -> (r: Self)
        ensures
            r@ == self@,
    {
        Rule { inbound: copy_strings(&self.inbound), outbound: self.outbound.clone() }
    }
}

/// The listeners, outbounds and rules of a configuration.
#[derive(Debug, Clone)]
pub struct SingBoxConfig {
    pub inbounds: Vec<Inbound>,
    pub outbounds: Vec<Outbound>,
    pub rules: Vec<Rule>,
}

/// A configuration as plain values.
pub struct SingBoxConfigView {
    pub inbounds: Seq<InboundView>,
    pub outbounds: Seq<OutboundView>,
    pub rules: Seq<RuleView>,
}

impl View for SingBoxConfig {
    type V = SingBoxConfigView;

    open spec fn view(&self) -> SingBoxConfigView {
        SingBoxConfigView {
            inbounds: self.inbounds@.map_values(|x: Inbound| x@),
            outbounds: self.outbounds@.map_values(|x: Outbound| x@),
            rules: self.rules@.map_values(|x: Rule| x@),
        }
    }
}

/// The tag of the listener of batch member `i`.
pub open spec fn inbound_tag(i: nat) -> Seq<char> {
    "inbound-"@ + decimal_text(i)
}

/// The tag of the outbound of batch member `i`.
pub open spec fn outbound_tag(i: nat) -> Seq<char> {
    "outbound-"@ + decimal_text(i)
}

/// The listeners of a batch of `n` members.
pub open spec fn generated_inbounds(n: nat, listen_ip: Seq<char>, port_base: u16) -> Seq<
    InboundView,
> {
    Seq::new(n, |i: int| socks_inbound(inbound_tag(i as nat), listen_ip, (port_base + i) as u16))
}

/// The outbounds of a batch to the addresses `ips`, with the other settings
/// of the template.
pub open spec fn generated_outbounds(template: OutboundView, ips: Seq<Seq<char>>) -> Seq<
    OutboundView,
> {
    Seq::new(
        ips.len(),
        |i: int|
            OutboundView {
                tag: Some(outbound_tag(i as nat)),
                server: Some(ips[i]),
                other: template.other,
            },
    )
}

/// The rules of a batch of `n` members.
pub open spec fn generated_rules(n: nat) -> Seq<RuleView> {
    Seq::new(
        n,
        |i: int| RuleView { inbound: seq![inbound_tag(i as nat)], outbound: outbound_tag(i as nat) },
    )
}

/// A label followed by a number.
fn tag_of(label: &str, i: usize) -> (s: String)
    ensures
        s@ == label@ + decimal_text(i as nat),
{
    let mut s = String::new();
    s.append(label);
    push_chars(&mut s, &decimal_chars(i as u64));
    assert(s@ =~= label@ + decimal_text(i as nat));
    s
}

impl SingBoxConfig {
    /// A configuration without entries.
    pub fn new() -> (r: Self)
        ensures
            r@.inbounds.len() == 0,
            r@.outbounds.len() == 0,
            r@.rules.len() == 0,
    {
        SingBoxConfig { inbounds: Vec::new(), outbounds: Vec::new(), rules: Vec::new() }
    }

    /// A copy of this configuration.
    pub fn duplicate(&self) -> (r: Self)
        ensures
            r@ == self@,
    {
        let mut inbounds: Vec<Inbound> = Vec::new();
        let mut i: usize = 0;
        while i < self.inbounds.len()
            invariant
                i <= self.inbounds.len(),
                inbounds@.map_values(|x: Inbound| x@) == self@.inbounds.take(i as int),
            decreases self.inbounds.len() - i,
        {
            let ghost before = inbounds@.map_values(|x: Inbound| x@);
            inbounds.push(self.inbounds[i].duplicate());
            proof {
                assert(inbounds@.map_values(|x: Inbound| x@) =~= before.push(self.inbounds[i as int]@));
                assert(self@.inbounds.take(i + 1) =~= self@.inbounds.take(i as int).push(
                    self.inbounds[i as int]@,
                ));
            }
            i = i + 1;
        }
        let mut outbounds: Vec<Outbound> = Vec::new();
        let mut j: usize = 0;
        while j < self.outbounds.len()
            invariant
                j <= self.outbounds.len(),
                outbounds@.map_values(|x: Outbound| x@) == self@.outbounds.take(j as int),
            decreases self.outbounds.len() - j,
        {
            let ghost before = outbounds@.map_values(|x: Outbound| x@);
            outbounds.push(self.outbounds[j].duplicate());
            proof {
                assert(outbounds@.map_values(|x: Outbound| x@) =~= before.push(
                    self.outbounds[j as int]@,
                ));
                assert(self@.outbounds.take(j + 1) =~= self@.outbounds.take(j as int).push(
                    self.outbounds[j as int]@,
                ));
            }
            j = j + 1;
        }
        let mut rules: Vec<Rule> = Vec::new();
        let mut k: usize = 0;
        while k < self.rules.len()
            invariant
                k <= self.rules.len(),
                rules@.map_values(|x: Rule| x@) == self@.rules.take(k as int),
            decreases self.rules.len() - k,
        {
            let ghost before = rules@.map_values(|x: Rule| x@);
            rules.push(self.rules[k].duplicate());
            proof {
                assert(rules@.map_values(|x: Rule| x@) =~= before.push(self.rules[k as int]@));
                assert(self@.rules.take(k + 1) =~= self@.rules.take(k as int).push(
                    self.rules[k as int]@,
                ));
            }
            k = k + 1;
        }
        proof {
            assert(self@.inbounds.take(i as int) =~= self@.inbounds);
            assert(self@.outbounds.take(j as int) =~= self@.outbounds);
            assert(self@.rules.take(k as int) =~= self@.rules);
        }
        SingBoxConfig { inbounds, outbounds, rules }
    }

    /// This configuration with the entries of a batch behind its own: for
    /// the address `ips[i]` a listener on `listen_ip` at port
    /// `port_base + i`, an outbound made from `outbound_template` that leads
    /// to the address, and a rule from the one to the other.
    pub fn generate(
        &self,
        outbound_template: &Outbound,
        ips: &Vec<String>,
        listen_ip: String,
        port_base: u16,
    ) -> (r: Self)
        requires
            port_base + ips.len() <= 0x1_0000,
        ensures
            r@.inbounds == self@.inbounds + generated_inbounds(
                ips.len() as nat,
                listen_ip@,
                port_base,
            ),
            r@.outbounds == self@.outbounds + generated_outbounds(
                outbound_template@,
                ips@.map_values(|ip: String| ip@),
            ),
            r@.rules == self@.rules + generated_rules(ips.len() as nat),
    {
        let mut ret = self.duplicate();
        let ghost texts = ips@.map_values(|ip: String| ip@);
        let ghost n = ips.len() as nat;
        let mut i: usize = 0;
        proof {
            assert(generated_inbounds(n, listen_ip@, port_base).take(0) =~= Seq::<
                InboundView,
            >::empty());
            assert(generated_outbounds(outbound_template@, texts).take(0) =~= Seq::<OutboundView>::empty());
            assert(generated_rules(n).take(0) =~= Seq::<RuleView>::empty());
            assert(self@.inbounds + Seq::<InboundView>::empty() =~= self@.inbounds);
            assert(self@.outbounds + Seq::<OutboundView>::empty() =~= self@.outbounds);
            assert(self@.rules + Seq::<RuleView>::empty() =~= self@.rules);
        }
        while i < ips.len()
            invariant
                i <= ips.len(),
                n == ips.len(),
                texts == ips@.map_values(|ip: String| ip@),
                port_base + ips.len() <= 0x1_0000,
                ret@.inbounds == self@.inbounds + generated_inbounds(
                    n,
                    listen_ip@,
                    port_base,
                ).take(i as int),
                ret@.outbounds == self@.outbounds + generated_outbounds(outbound_template@, texts).take(i as int),
                ret@.rules == self@.rules + generated_rules(n).take(i as int),
            decreases ips.len() - i,
        {
            let ghost before = ret@;
            let inbound_tag = tag_of("inbound-", i);
            let outbound_tag = tag_of("outbound-", i);
            let port: u16 = (port_base as usize + i) as u16;
            ret.inbounds.push(Inbound::new(inbound_tag.clone(), listen_ip.clone(), port));
            ret.outbounds.push(outbound_template.generate(outbound_tag.clone(), ips[i].clone()));
            ret.rules.push(Rule::new(inbound_tag, outbound_tag));
            proof {
                let gi = generated_inbounds(n, listen_ip@, port_base);
                let go = generated_outbounds(outbound_template@, texts);
                let gr = generated_rules(n);
                assert(ret@.inbounds =~= before.inbounds.push(gi[i as int]));
                assert(ret@.outbounds =~= before.outbounds.push(go[i as int]));
                assert(ret@.rules =~= before.rules.push(gr[i as int]));
                assert(gi.take(i + 1) =~= gi.take(i as int).push(gi[i as int]));
                assert(go.take(i + 1) =~= go.take(i as int).push(go[i as int]));
                assert(gr.take(i + 1) =~= gr.take(i as int).push(gr[i as int]));
                assert(self@.inbounds + gi.take(i + 1) =~= (self@.inbounds + gi.take(
                    i as int,
                )).push(gi[i as int]));
                assert(self@.outbounds + go.take(i + 1) =~= (self@.outbounds + go.take(
                    i as int,
                )).push(go[i as int]));
                assert(self@.rules + gr.take(i + 1) =~= (self@.rules + gr.take(i as int)).push(
                    gr[i as int],
                ));
            }
            i = i + 1;
        }
        proof {
            assert(generated_inbounds(n, listen_ip@, port_base).take(i as int)
                =~= generated_inbounds(n, listen_ip@, port_base));
            assert(generated_outbounds(outbound_template@, texts).take(i as int) =~= generated_outbounds(outbound_template@, texts));
            assert(generated_rules(n).take(i as int) =~= generated_rules(n));
        }
        ret
    }
}

} // verus!
