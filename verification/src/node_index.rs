use vstd::prelude::*;

verus! {

/// The sentinel index that marks "no node".
pub const NODE_INDEX_NONE: usize = usize::MAX;

/// An index into a node arena, where `usize::MAX` stands for "no node".
#[derive(Copy, Clone, PartialEq, Eq, Structural, Debug)]
pub struct NodeIndex(pub usize);

impl NodeIndex {
    /// Whether this index is the "no node" sentinel.
    pub open spec fn spec_is_none(self) -> bool {
        self.0 == NODE_INDEX_NONE
    }

    /// The index that refers to no node.
    pub fn none() -> (r: Self)
        ensures
            r.0 == NODE_INDEX_NONE,
            r.spec_is_none(),
    {
        NodeIndex(NODE_INDEX_NONE)
    }

    /// The index that refers to node `n`.
    pub fn some(n: usize) -> (r: Self)
        ensures
            r.0 == n,
    {
        NodeIndex(n)
    }

    /// True exactly when this is the sentinel.
    pub fn is_none(self) -> (r: bool)
        ensures
            r == self.spec_is_none(),
    {
        self.0 == NODE_INDEX_NONE
    }

    /// True exactly when this refers to a node.
    pub fn is_some(self) -> (r: bool)
        ensures
            r == !self.spec_is_none(),
    {
        self.0 != NODE_INDEX_NONE
    }
}

impl Default for NodeIndex {
    fn default() -> (r: Self)
        ensures
            r.spec_is_none(),
    {
        Self::none()
    }
}

/// Every index built by `some` from a value other than the sentinel refers to a node,
/// and `none` never does.
pub proof fn lemma_some_is_some(n: usize)
    requires
        n != NODE_INDEX_NONE,
    ensures
        !NodeIndex(n).spec_is_none(),
        NodeIndex(NODE_INDEX_NONE).spec_is_none(),
{
}

} // verus!
