//! What a coordinator is set up with for its lifetime.

use crate::bytes::views;
use crate::placement::{key2volume, placement};
use crate::record::{all_distinct, all_valid, valid_volume_id};
use vstd::prelude::*;

verus! {

/// The pool of volumes and how keys are spread over it.
#[derive(Clone, PartialEq, Eq, Debug)]
pub struct Config {
    /// The volumes of the pool, in the order in which they were given.
    pub volumes: Vec<Vec<u8>>,
    /// On how many volumes a key is stored.
    pub replicas: usize,
    /// In how many parts every volume is divided.
    pub subvolumes: usize,
    /// Where readers are sent for keys that are unlinked; empty if nowhere.
    pub fallback: Vec<u8>,
}

/// A configuration as a mathematical value.
pub struct ConfigView {
    pub volumes: Seq<Seq<u8>>,
    pub replicas: nat,
    pub subvolumes: nat,
    pub fallback: Seq<u8>,
}

impl View for Config {
    type V = ConfigView;

    open spec fn view(&self) -> ConfigView {
        ConfigView {
            volumes: views(self.volumes@),
            replicas: self.replicas as nat,
            subvolumes: self.subvolumes as nat,
            fallback: self.fallback@,
        }
    }
}

impl ConfigView {
    /// A key is stored at least once, a volume has at least one part, the
    /// pool is not empty, and its volumes have valid identifiers, each
    /// different from the others.
    pub open spec fn wf(self) -> bool {
        &&& self.replicas >= 1
        &&& self.subvolumes >= 1
        &&& self.volumes.len() >= 1
        &&& forall|i: int| 0 <= i < self.volumes.len() ==> valid_volume_id(#[trigger] self.volumes[i])
        &&& self.volumes.no_duplicates()
    }

    /// The volumes that should hold a key.
    pub open spec fn desired(self, key: Seq<u8>) -> Seq<Seq<u8>> {
        placement(key, self.volumes, self.replicas, self.subvolumes)
    }
}

impl Config {
    /// Whether the configuration can be worked with.
    pub fn is_well_formed(&self) -> (r: bool)
        ensures
            r == self@.wf(),
    {
        if self.replicas < 1 || self.subvolumes < 1 || self.volumes.len() < 1 {
            return false;
        }
        all_valid(self.volumes.as_slice()) && all_distinct(self.volumes.as_slice())
    }

    /// The volumes that should hold a key.
    pub fn desired(&self, key: &[u8]) -> (out: Vec<Vec<u8>>)
        requires
            self.subvolumes >= 1,
        ensures
            views(out@) == self@.desired(key@),
    {
        key2volume(key, self.volumes.as_slice(), self.replicas, self.subvolumes)
    }
}

} // verus!
