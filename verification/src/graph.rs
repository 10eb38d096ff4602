//! Spec-level view of a node array as a graph: which inputs the
//! normalization accepts, and what the normalized layout looks like.

use vstd::prelude::*;
use crate::node::GraphNode;

verus! {

/// Every parent index and every child index stored in `s` is in `[0, s.len())`.
pub open spec fn links_in_range<T: GraphNode>(s: Seq<T>) -> bool {
    &&& forall|i: int|
        0 <= i < s.len() ==> (#[trigger] s[i].parent_link() matches Some(p) ==> (p as int)
            < s.len())
    &&& forall|i: int, j: int|
        0 <= i < s.len() && 0 <= j < s[i].child_links().len()
            ==> (#[trigger] s[i].child_links()[j] as int) < s.len()
}

/// The parent slots agree with the child lists: whenever a node records a
/// parent, that parent's child list contains the node.
pub open spec fn linked<T: GraphNode>(s: Seq<T>) -> bool {
    forall|c: int|
        0 <= c < s.len() ==> (#[trigger] s[c].parent_link() matches Some(p) ==> (p as int)
            < s.len() && s[p as int].child_links().contains(c as usize))
}

/// `w` ranks the nodes so that every precedence constraint of the
/// normalization goes strictly downhill: a node outranks each of its
/// children, and an earlier sibling outranks a later one.
pub open spec fn rank_respects<T: GraphNode>(s: Seq<T>, w: Seq<int>) -> bool {
    &&& w.len() == s.len()
    &&& forall|i: int| 0 <= i < w.len() ==> #[trigger] w[i] >= 0
    &&& forall|i: int, j: int|
        0 <= i < s.len() && 0 <= j < s[i].child_links().len()
            ==> w[i] > w[#[trigger] s[i].child_links()[j] as int]
    &&& forall|i: int, j: int, k: int|
        0 <= i < s.len() && 0 <= j < k < s[i].child_links().len()
            ==> w[#[trigger] s[i].child_links()[j] as int]
                > w[#[trigger] s[i].child_links()[k] as int]
}

/// The precedence constraints of `s` admit a strict ranking.  This is how
/// acyclicity enters the contracts: a constraint relation has such a ranking
/// exactly when it has no cycle, and a caller that knows why its graph is
/// acyclic can exhibit one.
pub open spec fn orderable<T: GraphNode>(s: Seq<T>) -> bool {
    exists|w: Seq<int>| rank_respects(s, w)
}

/// A graph that already satisfies both normalization invariants is an
/// acceptable input: reading the node indices backwards ranks it.  Together
/// with the postconditions of normalization this makes normalizing a second
/// time possible, and the second run is guaranteed to change nothing.
pub proof fn lemma_normalized_orderable<T: GraphNode>(s: Seq<T>)
    requires
        links_in_range(s),
        normalized(s),
    ensures
        orderable(s),
{
    let n = s.len() as int;
    let w = Seq::new(s.len(), |i: int| n - i);
    assert forall|i: int, j: int|
        0 <= i < n && 0 <= j < s[i].child_links().len() implies w[i] > w[#[trigger] s[
        i].child_links()[j] as int] by {
        assert((s[i].child_links()[j] as int) < n);
        assert(i < s[i].child_links()[j] as int);
    }
    assert forall|i: int, j: int, k: int|
        0 <= i < n && 0 <= j < k < s[i].child_links().len() implies w[#[trigger] s[
        i].child_links()[j] as int] > w[#[trigger] s[i].child_links()[k] as int] by {
        assert((s[i].child_links()[j] as int) < n);
        assert((s[i].child_links()[k] as int) < n);
        assert((s[i].child_links()[j] as int) < s[i].child_links()[k] as int);
    }
    assert(rank_respects(s, w));
}

/// Every stored child index is strictly greater than the index of the node
/// holding it.
pub open spec fn children_after_parent<T: GraphNode>(s: Seq<T>) -> bool {
    forall|i: int, j: int|
        0 <= i < s.len() && 0 <= j < s[i].child_links().len()
            ==> i < #[trigger] s[i].child_links()[j] as int
}

/// Every stored child list is strictly ascending.
pub open spec fn siblings_ascending<T: GraphNode>(s: Seq<T>) -> bool {
    forall|i: int, j: int, k: int|
        0 <= i < s.len() && 0 <= j < k < s[i].child_links().len()
            ==> (#[trigger] s[i].child_links()[j] as int)
                < (#[trigger] s[i].child_links()[k] as int)
}

/// The two invariants normalization establishes, read off the child lists.
pub open spec fn normalized<T: GraphNode>(s: Seq<T>) -> bool {
    children_after_parent(s) && siblings_ascending(s)
}

/// Every node that records a parent sits at a strictly greater index than
/// that parent.
pub open spec fn parent_before_child<T: GraphNode>(s: Seq<T>) -> bool {
    forall|i: int|
        0 <= i < s.len() ==> (#[trigger] s[i].parent_link() matches Some(p) ==> (p as int) < i)
}

/// The generator `g` satisfies every precedence constraint of `s` strictly:
/// relabeling `s` by `g` puts every node before each of its children and
/// every earlier sibling before each later one.
pub open spec fn arranges<T: GraphNode>(g: Seq<usize>, s: Seq<T>) -> bool {
    &&& forall|i: int, j: int|
        0 <= i < s.len() && 0 <= j < s[i].child_links().len()
            ==> (g[i] as int) < g[#[trigger] s[i].child_links()[j] as int] as int
    &&& forall|i: int, j: int, k: int|
        0 <= i < s.len() && 0 <= j < k < s[i].child_links().len()
            ==> (g[#[trigger] s[i].child_links()[j] as int] as int)
                < g[#[trigger] s[i].child_links()[k] as int] as int
}

/// The parent slot with its index translated through `g`.
pub open spec fn relink_opt(p: Option<usize>, g: Seq<usize>) -> Option<usize> {
    match p {
        Some(x) => Some(g[x as int]),
        None => None,
    }
}

/// The child list with every index translated through `g`.
pub open spec fn relink_all(cs: Seq<usize>, g: Seq<usize>) -> Seq<usize> {
    Seq::new(cs.len(), |j: int| g[cs[j] as int])
}

/// `t` is `s` relabeled by the permutation `g`: the node of `s` at `m` sits
/// in `t` at `g[m]`, with its parent and child indices translated through
/// `g`.  Which nodes are related as parent and child is thereby exactly the
/// relation of `s`, carried over along `g`.
pub open spec fn relabeling<T: GraphNode>(s: Seq<T>, t: Seq<T>, g: Seq<usize>) -> bool {
    &&& t.len() == s.len()
    &&& g.len() == s.len()
    &&& forall|m: int|
        0 <= m < s.len()
            ==> #[trigger] t[g[m] as int].parent_link() == relink_opt(s[m].parent_link(), g)
    &&& forall|m: int|
        0 <= m < s.len()
            ==> #[trigger] t[g[m] as int].child_links() == relink_all(s[m].child_links(), g)
}

/// `t` stores, node by node, the same parent and the same child list as `s`.
pub open spec fn same_links<T: GraphNode>(s: Seq<T>, t: Seq<T>) -> bool {
    &&& t.len() == s.len()
    &&& forall|i: int| 0 <= i < s.len() ==> #[trigger] t[i].parent_link() == s[i].parent_link()
    &&& forall|i: int| 0 <= i < s.len() ==> #[trigger] t[i].child_links() == s[i].child_links()
}

} // verus!
