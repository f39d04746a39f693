//! A map keyed by a peer and a number, from which a peer can be dropped at once.
use std::collections::HashMap;
use vstd::prelude::*;

verus! {

/// A map from a peer and a number to a value.
pub struct PairMap {
    inner: HashMap<u64, HashMap<u16, u64>>,
}

impl View for PairMap {
    type V = Map<(u64, u16), u64>;

    closed spec fn view(&self) -> Map<(u64, u16), u64> {
        Map::new(
            |k: (u64, u16)| self.inner@.contains_key(k.0) && self.inner@[k.0]@.contains_key(k.1),
            |k: (u64, u16)| self.inner@[k.0]@[k.1],
        )
    }
}

/// A map without what it holds of a peer.
pub open spec fn without_peer(m: Map<(u64, u16), u64>, peer: u64) -> Map<(u64, u16), u64> {
    Map::new(|k: (u64, u16)| m.contains_key(k) && k.0 != peer, |k: (u64, u16)| m[k])
}

impl PairMap {
    /// An empty map.
    pub fn new() -> (r: Self)
        ensures
            r@ == Map::<(u64, u16), u64>::empty(),
    {
        let r = PairMap { inner: HashMap::new() };
        assert(r@ =~= Map::empty());
        r
    }

    /// What the map holds under a peer and a number.
    pub fn get(&self, peer: u64, id: u16) -> (r: Option<u64>)
        ensures
            r == if self@.contains_key((peer, id)) {
                Some(self@[(peer, id)])
            } else {
                None
            },
    {
        match self.inner.get(&peer) {
            Some(of_peer) => match of_peer.get(&id) {
                Some(value) => Some(*value),
                None => None,
            },
            None => None,
        }
    }

    /// Puts a value under a peer and a number.
    pub fn insert(&mut self, peer: u64, id: u16, value: u64)
        ensures
            final(self)@ == old(self)@.insert((peer, id), value),
    {
        let mut of_peer = match self.inner.remove(&peer) {
            Some(of_peer) => of_peer,
            None => HashMap::new(),
        };
        of_peer.insert(id, value);
        self.inner.insert(peer, of_peer);
        assert(self@ =~= old(self)@.insert((peer, id), value));
    }

    /// Drops what the map holds of a peer.
    pub fn forget(&mut self, peer: u64)
        ensures
            final(self)@ == without_peer(old(self)@, peer),
    {
        self.inner.remove(&peer);
        assert(self@ =~= without_peer(old(self)@, peer));
    }
}

} // verus!
