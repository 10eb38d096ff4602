//! Behaviour of `fix` and `sort` on small concrete graphs.

use dag_normalize::node::{GraphNode, Node, TaggedNode};
use dag_normalize::normalize::{fix, solve, sort};

fn node(parent: Option<usize>, children: Vec<usize>) -> Node {
    Node { parent, children }
}

fn tagged(tag: u64, parent: Option<usize>, children: Vec<usize>) -> TaggedNode {
    TaggedNode { tag, parent, children }
}

/// Checks the two normalization invariants on a finished array.
fn assert_normalized(nodes: &[Node]) {
    for (i, n) in nodes.iter().enumerate() {
        if let Some(p) = n.parent {
            assert!(p < i, "parent {} of node {} not before it", p, i);
        }
        for pair in n.children.windows(2) {
            assert!(pair[0] < pair[1], "children of node {} not ascending", i);
        }
        for &c in &n.children {
            assert!(c > i, "child {} of node {} not after it", c, i);
            assert_eq!(nodes[c].parent, Some(i));
        }
    }
}

#[test]
fn empty_graph() {
    let mut nodes: Vec<Node> = Vec::new();
    fix(&mut nodes);
    assert!(nodes.is_empty());
}

#[test]
fn single_root() {
    let mut nodes = vec![node(None, vec![])];
    fix(&mut nodes);
    assert_eq!(nodes.len(), 1);
    assert_eq!(nodes[0].parent, None);
    assert!(nodes[0].children.is_empty());
}

#[test]
fn already_normalized_left_unchanged() {
    // Three nodes; node 0 is a root with child 2, node 1 a lone root.
    // Both invariants hold already, so nothing may move.
    let mut nodes = vec![
        node(None, vec![2]),
        node(None, vec![]),
        node(Some(0), vec![]),
    ];
    fix(&mut nodes);
    assert_eq!(nodes[0].parent, None);
    assert_eq!(nodes[0].children, vec![2]);
    assert_eq!(nodes[1].parent, None);
    assert!(nodes[1].children.is_empty());
    assert_eq!(nodes[2].parent, Some(0));
    assert!(nodes[2].children.is_empty());
}

#[test]
fn child_stored_before_parent() {
    // Node 0 is the child of node 1: normalization must exchange them and
    // rewrite both links.
    let mut nodes = vec![node(Some(1), vec![]), node(None, vec![0])];
    fix(&mut nodes);
    assert_eq!(nodes[0].parent, None);
    assert_eq!(nodes[0].children, vec![1]);
    assert_eq!(nodes[1].parent, Some(0));
    assert!(nodes[1].children.is_empty());
}

#[test]
fn siblings_listed_out_of_order() {
    // Node 0 lists its children as [2, 1]; afterwards the list must ascend
    // and both invariants must hold, whatever final layout was chosen.
    let mut nodes = vec![
        node(None, vec![2, 1]),
        node(Some(0), vec![]),
        node(Some(0), vec![]),
    ];
    fix(&mut nodes);
    assert_normalized(&nodes);
    assert_eq!(nodes[0].parent, None);
    assert_eq!(nodes[0].children, vec![1, 2]);
}

#[test]
fn solver_returns_a_permutation() {
    // The generator must always be a bijection of [0, n).
    let nodes = vec![
        node(Some(2), vec![]),
        node(Some(2), vec![]),
        node(None, vec![1, 0]),
        node(None, vec![]),
    ];
    let gen = solve(&nodes);
    assert_eq!(gen.len(), nodes.len());
    let mut seen = vec![false; gen.len()];
    for &v in &gen {
        assert!(v < gen.len());
        assert!(!seen[v], "generator repeats value {}", v);
        seen[v] = true;
    }
    assert!(seen.iter().all(|&b| b));
}

#[test]
fn solver_is_identity_on_normalized_input() {
    let nodes = vec![
        node(None, vec![1, 2]),
        node(Some(0), vec![]),
        node(Some(0), vec![]),
    ];
    let gen = solve(&nodes);
    assert_eq!(gen, vec![0, 1, 2]);
}

#[test]
fn normalizing_twice_changes_nothing_more() {
    let mut nodes = vec![
        node(Some(3), vec![]),
        node(Some(3), vec![]),
        node(None, vec![3]),
        node(Some(2), vec![1, 0]),
    ];
    fix(&mut nodes);
    assert_normalized(&nodes);
    let first = nodes.clone();
    fix(&mut nodes);
    assert_eq!(nodes, first);
}

#[test]
fn tags_travel_with_their_nodes() {
    // A reversed chain of tagged nodes: 2 -> 1 -> 0 (parents point forward).
    // After sorting, the chain must read root-first and each tag must still
    // sit on the node carrying its links.
    let mut nodes = vec![
        tagged(10, Some(1), vec![]),
        tagged(11, Some(2), vec![0]),
        tagged(12, None, vec![1]),
    ];
    sort(&mut nodes);
    assert_eq!(nodes[0].tag, 12);
    assert_eq!(nodes[1].tag, 11);
    assert_eq!(nodes[2].tag, 10);
    assert_eq!(nodes[0].parent, None);
    assert_eq!(nodes[0].children, vec![1]);
    assert_eq!(nodes[1].parent, Some(0));
    assert_eq!(nodes[1].children, vec![2]);
    assert_eq!(nodes[2].parent, Some(1));
    assert!(nodes[2].children.is_empty());
}

#[test]
fn relation_is_preserved_up_to_relabeling() {
    // The set of (parent tag, child tag) pairs must be exactly the same
    // before and after, whatever indices the nodes end up at.
    let mut nodes = vec![
        tagged(0, Some(4), vec![]),
        tagged(1, None, vec![4, 2]),
        tagged(2, Some(1), vec![]),
        tagged(3, Some(4), vec![]),
        tagged(4, Some(1), vec![3, 0]),
    ];
    let mut before: Vec<(u64, u64)> = Vec::new();
    for n in &nodes {
        for &c in &n.children {
            before.push((n.tag, nodes[c].tag));
        }
    }
    before.sort();
    sort(&mut nodes);
    let mut after: Vec<(u64, u64)> = Vec::new();
    for n in &nodes {
        for &c in &n.children {
            after.push((n.tag, nodes[c].tag));
        }
    }
    after.sort();
    assert_eq!(before, after);
    for (i, n) in nodes.iter().enumerate() {
        if let Some(p) = n.parent {
            assert!(p < i);
        }
        for &c in &n.children {
            assert!(c > i);
        }
    }
}

#[test]
fn long_reversed_chain_terminates_and_reverses() {
    // An adversarial input: a chain stored back to front, so nearly every
    // index must move.  The solver must still reach its fixed point quickly
    // and the result must be the chain in storage order.
    let n: usize = 300;
    let mut nodes: Vec<Node> = Vec::new();
    for i in 0..n {
        let parent = if i + 1 < n { Some(i + 1) } else { None };
        let children = if i > 0 { vec![i - 1] } else { vec![] };
        nodes.push(node(parent, children));
    }
    fix(&mut nodes);
    assert_normalized(&nodes);
    for i in 0..n {
        assert_eq!(nodes[i].parent, if i == 0 { None } else { Some(i - 1) });
        assert_eq!(nodes[i].children, if i + 1 < n { vec![i + 1] } else { vec![] });
    }
}

#[test]
fn wide_fanout_gets_sorted() {
    // One root with eight children listed in descending order.
    let mut nodes = vec![node(None, (1..9).rev().collect())];
    for _ in 0..8 {
        let parent = Some(0);
        nodes.push(node(parent, vec![]));
    }
    fix(&mut nodes);
    assert_normalized(&nodes);
    assert_eq!(nodes[0].children, (1..9).collect::<Vec<usize>>());
}
