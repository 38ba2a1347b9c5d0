//! Comparing tries as they stand in memory.

use crate::amt::{AmtImpl, TrieModel};
use crate::node::alike::alike;
use vstd::prelude::*;
use vstd::std_specs::cmp::PartialEqSpecImpl;

verus! {

impl TrieModel {
    /// Whether two tries are alike as they stand in memory: of the same layout, bit
    /// width, height and count, with topmost nodes that are alike. Two tries that hold
    /// the same may still differ in what they have pending.
    pub open spec fn alike(self, other: TrieModel) -> bool {
        &&& self.version == other.version
        &&& self.bit_width == other.bit_width
        &&& self.height == other.height
        &&& self.count == other.count
        &&& alike(self.node, other.node)
    }
}

impl PartialEq for AmtImpl {
    /// Whether two tries are alike as they stand in memory.
    fn eq(&self, other: &Self) -> (b: bool) {
        self.root.version == other.root.version && self.root.bit_width == other.root.bit_width
            && self.root.height == other.root.height && self.root.count == other.root.count
            && self.root.node.same_as(&other.root.node)
    }
}

impl PartialEqSpecImpl for AmtImpl {
    open spec fn obeys_eq_spec() -> bool {
        true
    }

    open spec fn eq_spec(&self, other: &Self) -> bool {
        self@.alike(other@)
    }
}

} // verus!
