//! The node interface the normalization works through, and the conventional
//! node type that implements it.
//!
//! The algorithm never looks at anything but a node's optional parent index
//! and its ordered list of child indices, so it is written against a trait
//! exposing exactly those two slots.  Any array element type that implements
//! the trait can be normalized; `Node` is the fixed-schema shape.

use vstd::prelude::*;
use vstd::pervasive::VecAdditionalExecFns;

verus! {

/// Read and write access to a node's optional parent index and to its
/// ordered child-index list.  The two spec functions are the mathematical
/// view of those slots; every method is specified against them, and an
/// implementation must prove that its methods meet these contracts.
pub trait GraphNode: Sized {
    /// The parent index stored in the node, if any.
    spec fn parent_link(&self) -> Option<usize>;

    /// The child indices stored in the node, in list order.
    spec fn child_links(&self) -> Seq<usize>;

    /// Reads the parent slot.
    fn parent_slot(&self) -> (p: Option<usize>)
        ensures
            p == self.parent_link(),
    ;

    /// Overwrites the parent slot, leaving the child list alone.
    fn set_parent_slot(&mut self, p: Option<usize>)
        ensures
            final(self).parent_link() == p,
            final(self).child_links() == old(self).child_links(),
    ;

    /// The number of children.
    fn child_count(&self) -> (n: usize)
        ensures
            n == self.child_links().len(),
    ;

    /// Reads the child at list position `j`.
    fn child_at(&self, j: usize) -> (c: usize)
        requires
            (j as int) < self.child_links().len(),
        ensures
            c == self.child_links()[j as int],
    ;

    /// Overwrites the child at list position `j`, leaving the parent slot
    /// and the rest of the list alone.
    fn set_child_at(&mut self, j: usize, c: usize)
        requires
            (j as int) < old(self).child_links().len(),
        ensures
            final(self).child_links() == old(self).child_links().update(j as int, c),
            final(self).parent_link() == old(self).parent_link(),
    ;
}

/// A node slot of the conventional shape: one optional parent index and one
/// ordered child-index list, nothing else.
#[derive(Debug, Clone, PartialEq, Eq)]
pub struct Node {
    pub parent: Option<usize>,
    pub children: Vec<usize>,
}

impl GraphNode for Node {
    open spec fn parent_link(&self) -> Option<usize> {
        self.parent
    }

    open spec fn child_links(&self) -> Seq<usize> {
        self.children@
    }

    fn parent_slot(&self) -> (p: Option<usize>) {
        self.parent
    }

    fn set_parent_slot(&mut self, p: Option<usize>) {
        self.parent = p;
    }

    fn child_count(&self) -> (n: usize) {
        self.children.len()
    }

    fn child_at(&self, j: usize) -> (c: usize) {
        self.children[j]
    }

    fn set_child_at(&mut self, j: usize, c: usize) {
        self.children.set(j, c);
    }
}

/// A node slot that carries a payload the normalization never reads.  It
/// exists so that the physical movement of whole nodes is observable: after
/// normalizing, each tag sits wherever its node was moved to.
#[derive(Debug, Clone, PartialEq, Eq)]
pub struct TaggedNode {
    pub tag: u64,
    pub parent: Option<usize>,
    pub children: Vec<usize>,
}

impl GraphNode for TaggedNode {
    open spec fn parent_link(&self) -> Option<usize> {
        self.parent
    }

    open spec fn child_links(&self) -> Seq<usize> {
        self.children@
    }

    fn parent_slot(&self) -> (p: Option<usize>) {
        self.parent
    }

    fn set_parent_slot(&mut self, p: Option<usize>) {
        self.parent = p;
    }

    fn child_count(&self) -> (n: usize) {
        self.children.len()
    }

    fn child_at(&self, j: usize) -> (c: usize) {
        self.children[j]
    }

    fn set_child_at(&mut self, j: usize, c: usize) {
        self.children.set(j, c);
    }
}

} // verus!
