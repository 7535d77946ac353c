//! General utils

use crate::stat::{EncapNormalHeader, SmiHeader};
use vstd::prelude::*;

verus! {

/// Packet selector
pub trait Selector<P> {
    /// Whether this selector accepts the packet.
    spec fn selects(&self, packet: P) -> bool;

    /// Check whether the given packet matches this selector
    fn matches(&self, packet: &P) -> (r: bool)
        ensures
            r == self.selects(*packet),
    ;
}

/// Whether `v` holds `x`.
fn holds(v: &Vec<u64>, x: u64) -> (r: bool)
    ensures
        r == v@.contains(x),
{
    let mut i: usize = 0;
    while i < v.len()
        invariant
            i <= v@.len(),
            forall|j: int| 0 <= j < i ==> v@[j] != x,
        decreases v.len() - i,
    {
        if v[i] == x {
            return true;
        }
        i = i + 1;
    }
    false
}

impl Selector<EncapNormalHeader> for u64 {
    open spec fn selects(&self, packet: EncapNormalHeader) -> bool {
        packet.src_id as u64 == *self
    }

    fn matches(&self, packet: &EncapNormalHeader) -> (r: bool) {
        packet.src_id as u64 == *self
    }
}

impl Selector<SmiHeader> for u64 {
    open spec fn selects(&self, packet: SmiHeader) -> bool {
        packet.hart == *self
    }

    fn matches(&self, packet: &SmiHeader) -> (r: bool) {
        packet.hart == *self
    }
}

impl Selector<EncapNormalHeader> for Vec<u64> {
    open spec fn selects(&self, packet: EncapNormalHeader) -> bool {
        self@.len() == 0 || self@.contains(packet.src_id as u64)
    }

    fn matches(&self, packet: &EncapNormalHeader) -> (r: bool) {
        self.len() == 0 || holds(self, packet.src_id as u64)
    }
}

impl Selector<SmiHeader> for Vec<u64> {
    open spec fn selects(&self, packet: SmiHeader) -> bool {
        self@.len() == 0 || self@.contains(packet.hart)
    }

    fn matches(&self, packet: &SmiHeader) -> (r: bool) {
        self.len() == 0 || holds(self, packet.hart)
    }
}

/// A [`Selector`] accepting all packets
#[derive(Copy, Clone, Default, Debug)]
pub struct All;

impl<P> Selector<P> for All {
    open spec fn selects(&self, packet: P) -> bool {
        true
    }

    fn matches(&self, packet: &P) -> (r: bool) {
        true
    }
}

} // verus!
