//! Version vectors: for each peer, how many of its atoms are known.
use vstd::prelude::*;

use fxhash::FxHashMap;

use crate::fx::{fx_map_get, fx_map_insert, fx_map_new, ClientMap};
use crate::{ClientID, Counter};

verus! {

/// For each peer, the counter of its next unknown atom. A peer that is absent
/// has no known atom.
pub struct VersionVector {
    pub vv: FxHashMap<ClientID, Counter>,
}

impl VersionVector {
    pub open spec fn view(&self) -> Map<ClientID, Counter> {
        self.vv@
    }

    /// The counter of `client`'s next unknown atom.
    pub open spec fn spec_get(&self, client: ClientID) -> Counter {
        if self.vv@.contains_key(client) {
            self.vv@[client]
        } else {
            0
        }
    }

    pub fn new() -> (v: Self)
        ensures
            v.view().dom() == Set::<ClientID>::empty(),
    {
        VersionVector { vv: fx_map_new() }
    }

    /// See [`VersionVector::spec_get`].
    pub fn get(&self, client: ClientID) -> (c: Counter)
        ensures
            c == self.spec_get(client),
    {
        match fx_map_get(&self.vv, client) {
            Some(c) => *c,
            None => 0,
        }
    }

    /// Records that `client`'s atoms before `counter` are known.
    pub fn set(&mut self, client: ClientID, counter: Counter)
        ensures
            final(self).view() == old(self).view().insert(client, counter),
    {
        fx_map_insert(&mut self.vv, client, counter);
    }
}

impl Default for VersionVector {
    fn default() -> (v: Self)
        ensures
            v.view().dom() == Set::<ClientID>::empty(),
    {
        Self::new()
    }
}

} // verus!
