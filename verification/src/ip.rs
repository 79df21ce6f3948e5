//! IP addresses as plain numbers, and tables keyed by them.

use std::collections::HashMap;

use vstd::prelude::*;

verus! {

/// An IP address: its 32 or 128 bits, the first octet highest.
#[derive(Debug, Clone, Copy, PartialEq, Eq, Hash, Structural)]
pub enum IpAddr {
    V4(u32),
    V6(u128),
}

/// The `count` lowest bytes of a number, highest first.
pub open spec fn high_first(n: nat, count: nat) -> Seq<u8>
    decreases count,
{
    if count == 0 {
        Seq::empty()
    } else {
        high_first(n / 256, (count - 1) as nat).push((n % 256) as u8)
    }
}

fn bytes_high_first(n: u128, count: usize) -> (v: Vec<u8>)
    ensures
        v@ == high_first(n as nat, count as nat),
    decreases count,
{
    if count == 0 {
        let v: Vec<u8> = Vec::new();
        assert(v@ =~= Seq::empty());
        v
    } else {
        let mut v = bytes_high_first(n / 256, count - 1);
        v.push((n % 256) as u8);
        v
    }
}

/// The octets of an address: 4 or 16.
pub open spec fn octets_of(ip: IpAddr) -> Seq<u8> {
    match ip {
        IpAddr::V4(a) => high_first(a as nat, 4),
        IpAddr::V6(a) => high_first(a as nat, 16),
    }
}

impl IpAddr {
    /// The octets of the address.
    pub fn octets(&self) -> (v: Vec<u8>)
        ensures
            v@ == octets_of(*self),
    {
        match *self {
            IpAddr::V4(a) => bytes_high_first(a as u128, 4),
            IpAddr::V6(a) => bytes_high_first(a, 16),
        }
    }
}

/// A table with at most one entry for each address.
pub struct IpTable<V> {
    v4: HashMap<u32, V>,
    v6: HashMap<u128, V>,
}

impl<V> IpTable<V> {
    /// The entry of an address.
    pub closed spec fn at(&self, ip: IpAddr) -> Option<V> {
        match ip {
            IpAddr::V4(a) => if self.v4@.dom().contains(a) {
                Some(self.v4@[a])
            } else {
                None
            },
            IpAddr::V6(a) => if self.v6@.dom().contains(a) {
                Some(self.v6@[a])
            } else {
                None
            },
        }
    }

    /// A table without entries.
    pub fn new() -> (t: IpTable<V>)
        ensures
            forall|ip: IpAddr| (#[trigger] t.at(ip)) is None,
    {
        IpTable { v4: HashMap::new(), v6: HashMap::new() }
    }

    /// Does the table hold no entry?
    pub fn is_empty(&self) -> (r: bool)
        ensures
            r == (forall|ip: IpAddr| (#[trigger] self.at(ip)) is None),
    {
        let r = self.v4.is_empty() && self.v6.is_empty();
        proof {
            if r {
                assert(forall|a: u32| !self.v4@.dom().contains(a));
                assert(forall|a: u128| !self.v6@.dom().contains(a));
            } else if !self.v4@.is_empty() {
                let a = choose|a: u32| self.v4@.dom().contains(a);
                assert(self.v4@.dom().contains(a));
                assert(self.at(IpAddr::V4(a)) is Some);
            } else {
                let a = choose|a: u128| self.v6@.dom().contains(a);
                assert(self.v6@.dom().contains(a));
                assert(self.at(IpAddr::V6(a)) is Some);
            }
        }
        r
    }

    /// The entry of an address, if there is one.
    pub fn get(&self, ip: IpAddr) -> (r: Option<&V>)
        ensures
            match r {
                Some(v) => self.at(ip) == Some(*v),
                None => self.at(ip) is None,
            },
    {
        match ip {
            IpAddr::V4(a) => self.v4.get(&a),
            IpAddr::V6(a) => self.v6.get(&a),
        }
    }

    /// Sets the entry of an address; every other entry stays.
    pub fn put(&mut self, ip: IpAddr, v: V)
        ensures
            final(self).at(ip) == Some(v),
            forall|other: IpAddr|
                other != ip ==> #[trigger] final(self).at(other) == old(self).at(other),
    {
        match ip {
            IpAddr::V4(a) => {
                self.v4.insert(a, v);
            },
            IpAddr::V6(a) => {
                self.v6.insert(a, v);
            },
        }
    }

    /// Removes the entry of an address; every other entry stays.
    pub fn delete(&mut self, ip: IpAddr)
        ensures
            final(self).at(ip) is None,
            forall|other: IpAddr|
                other != ip ==> #[trigger] final(self).at(other) == old(self).at(other),
    {
        match ip {
            IpAddr::V4(a) => {
                self.v4.remove(&a);
            },
            IpAddr::V6(a) => {
                self.v6.remove(&a);
            },
        }
    }
}

} // verus!
