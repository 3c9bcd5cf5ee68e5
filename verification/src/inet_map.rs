//! A hashed map keyed by host address and prefix.
//!
//! `std`'s hash map is specified for integer keys. The map below holds one
//! such map for each pair of family and prefix length, keyed by the address
//! as an integer, and is viewed as one map keyed by [`IpInet`].

use crate::inet::{Family, IpInet};
use std::collections::HashMap;
use vstd::prelude::*;

verus! {

/// Number of pairs of a family and a prefix length.
pub const SLOTS: usize = 258;

/// Where the map of a key's family and prefix length stands.
pub open spec fn slot_of(k: IpInet) -> int {
    match k.family {
        Family::Ipv4 => k.network_length as int,
        Family::Ipv6 => 129 + k.network_length,
    }
}

/// Where the map of a key's family and prefix length stands.
fn slot_index(k: &IpInet) -> (t: usize)
    requires
        k.wf(),
    ensures
        t == slot_of(*k),
        t < SLOTS,
{
    match k.family {
        Family::Ipv4 => k.network_length as usize,
        Family::Ipv6 => 129 + k.network_length as usize,
    }
}

/// A map from well-formed hosts to values.
#[derive(Debug)]
pub struct InetMap<V> {
    slots: Vec<HashMap<u128, V>>,
    count: usize,
}

impl<V> View for InetMap<V> {
    type V = Map<IpInet, V>;

    closed spec fn view(&self) -> Map<IpInet, V> {
        Map::new(
            |k: IpInet| k.wf() && self.slots[slot_of(k)]@.contains_key(k.address),
            |k: IpInet| self.slots[slot_of(k)]@[k.address],
        )
    }
}

impl<V> InetMap<V> {
    /// The map holds what its view says, and has counted it.
    pub closed spec fn wf(&self) -> bool {
        &&& self.slots.len() == SLOTS
        &&& self@.dom().finite()
        &&& self.count == self@.dom().len()
    }

    /// Every key is a well-formed host.
    pub proof fn lemma_keys_wf(&self)
        ensures
            forall|k: IpInet| #[trigger] self@.contains_key(k) ==> k.wf(),
    {
    }

    /// The map has finitely many keys.
    pub proof fn lemma_wf(&self)
        requires
            self.wf(),
        ensures
            self@.dom().finite(),
    {
    }

    /// An empty map.
    pub fn new() -> (m: Self)
        ensures
            m.wf(),
            m@ == Map::<IpInet, V>::empty(),
    {
        broadcast use vstd::std_specs::hash::group_hash_axioms;

        let mut slots: Vec<HashMap<u128, V>> = Vec::new();
        let mut i: usize = 0;
        while i < SLOTS
            invariant
                i <= SLOTS,
                slots.len() == i,
                forall|j: int| 0 <= j < i ==> slots[j]@ == Map::<u128, V>::empty(),
            decreases SLOTS - i,
        {
            slots.push(HashMap::new());
            i = i + 1;
        }
        let m = InetMap { slots, count: 0 };
        assert(m@ =~= Map::<IpInet, V>::empty());
        m
    }

    /// Number of keys.
    pub fn len(&self) -> (n: usize)
        requires
            self.wf(),
        ensures
            n == self@.len(),
    {
        self.count
    }

    /// The value of `k`, if it has one.
    pub fn get(&self, k: &IpInet) -> (r: Option<&V>)
        requires
            self.wf(),
            k.wf(),
        ensures
            match r {
                Some(v) => self@.contains_key(*k) && *v == self@[*k],
                None => !self@.contains_key(*k),
            },
    {
        broadcast use vstd::std_specs::hash::group_hash_axioms;

        let t = slot_index(k);
        self.slots[t].get(&k.address)
    }

    /// Whether `k` has a value.
    pub fn contains_key(&self, k: &IpInet) -> (r: bool)
        requires
            self.wf(),
            k.wf(),
        ensures
            r == self@.contains_key(*k),
    {
        self.get(k).is_some()
    }

    /// Sets the value of `k`, whether or not it had one. A new key needs
    /// room in the count of keys.
    pub fn insert(&mut self, k: IpInet, v: V)
        requires
            old(self).wf(),
            k.wf(),
            old(self)@.contains_key(k) || old(self)@.len() < usize::MAX,
        ensures
            final(self).wf(),
            final(self)@ == old(self)@.insert(k, v),
    {
        broadcast use vstd::std_specs::hash::group_hash_axioms;

        let t = slot_index(&k);
        let had = self.slots[t].insert(k.address, v);
        if had.is_none() {
            self.count = self.count + 1;
        }
        assert(self@ =~= old(self)@.insert(k, v));
        assert(self@.dom() =~= old(self)@.dom().insert(k));
    }
}

} // verus!
