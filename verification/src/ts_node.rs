use vstd::prelude::*;

use crate::model::NodeInfo;
use crate::range::ByteRange;

verus! {

/// Byte containment between two node records: `scope` covers every byte
/// of `node`.
pub fn contains(scope: &NodeInfo, node: &NodeInfo) -> (r: bool)
    ensures
        r == scope.spec_range().spec_contains(node.spec_range()),
{
    scope.start_byte <= node.start_byte && scope.end_byte >= node.end_byte
}

/// The containment test as a trait, for callers that hold a node-like
/// value and ask whether it covers another node.
pub trait ContainsNode {
    spec fn covered_range(&self) -> ByteRange;

    fn contains_node(&self, node: &NodeInfo) -> (r: bool)
        ensures
            r == self.covered_range().spec_contains(node.spec_range()),
    ;
}

impl ContainsNode for NodeInfo {
    open spec fn covered_range(&self) -> ByteRange {
        self.spec_range()
    }

    fn contains_node(&self, node: &NodeInfo) -> (r: bool) {
        self.start_byte <= node.start_byte && self.end_byte >= node.end_byte
    }
}

} // verus!
