//! The normalization itself: the permutation solver, the link remapper, and
//! the cycle-retrace permuter, with `sort` and `fix` tying them together.

use vstd::prelude::*;
use crate::graph::{
    arranges, linked, links_in_range, normalized, orderable, parent_before_child, rank_respects,
    relabeling, relink_all, relink_opt, same_links,
};
use crate::node::{GraphNode, Node};
use crate::perm::{covers, identity_perm, is_identity, is_perm, lemma_swap_perm, swap_entries};

verus! {

/// The solver's termination potential: the rank-weighted sum of the
/// generator entries from position `k` on.  Every swap the solver performs
/// moves a smaller generator value to a higher-ranked node, so the sum
/// strictly drops.
spec fn phi(g: Seq<usize>, w: Seq<int>, k: int) -> int
    decreases g.len() - k,
{
    if k < 0 || k >= g.len() {
        0
    } else {
        w[k] * (g[k] as int) + phi(g, w, k + 1)
    }
}

/// With nonnegative ranks the potential is nonnegative.
proof fn lemma_phi_nonneg(g: Seq<usize>, w: Seq<int>, k: int)
    requires
        w.len() == g.len(),
        forall|i: int| 0 <= i < w.len() ==> #[trigger] w[i] >= 0,
    ensures
        phi(g, w, k) >= 0,
    decreases g.len() - k,
{
    if 0 <= k < g.len() {
        assert(w[k] * (g[k] as int) >= 0) by (nonlinear_arith)
            requires
                w[k] >= 0,
                g[k] as int >= 0,
        ;
        lemma_phi_nonneg(g, w, k + 1);
    }
}

/// Overwriting one generator entry shifts the potential by the rank of that
/// position times the change of the entry.
proof fn lemma_phi_update(g: Seq<usize>, w: Seq<int>, x: int, v: usize, k: int)
    requires
        0 <= k,
        0 <= x < g.len(),
        w.len() == g.len(),
    ensures
        phi(g.update(x, v), w, k) == phi(g, w, k) + if k <= x {
            w[x] * (v as int - g[x] as int)
        } else {
            0
        },
    decreases g.len() - k,
{
    let h = g.update(x, v);
    if k < 0 || k >= g.len() {
    } else {
        lemma_phi_update(g, w, x, v, k + 1);
        if k == x {
            assert(w[x] * (v as int) - w[x] * (g[x] as int) == w[x] * (v as int - g[x] as int))
                by (nonlinear_arith);
        }
    }
}

/// Swapping the generator entries of a higher-ranked position `x` and a
/// lower-ranked position `y`, when `x` currently holds the larger value,
/// strictly decreases the potential.
proof fn lemma_phi_swap(g: Seq<usize>, w: Seq<int>, x: int, y: int)
    requires
        0 <= x < g.len(),
        0 <= y < g.len(),
        x != y,
        w.len() == g.len(),
        w[x] > w[y],
        (g[x] as int) > (g[y] as int),
    ensures
        phi(g.update(x, g[y]).update(y, g[x]), w, 0) < phi(g, w, 0),
{
    let g1 = g.update(x, g[y]);
    lemma_phi_update(g, w, x, g[y], 0);
    lemma_phi_update(g1, w, y, g[x], 0);
    let dx = w[x] * (g[y] as int - g[x] as int);
    let dy = w[y] * (g[x] as int - g[y] as int);
    assert(dx + dy < 0) by (nonlinear_arith)
        requires
            dx == w[x] * (g[y] as int - g[x] as int),
            dy == w[y] * (g[x] as int - g[y] as int),
            w[x] > w[y],
            (g[x] as int) > (g[y] as int),
    ;
}

/// How many positions at or after `k` the generator does not yet map to
/// themselves: the retrace phase's termination measure.
spec fn unfixed_from(g: Seq<usize>, k: int) -> nat
    decreases g.len() - k,
{
    if k < 0 || k >= g.len() {
        0
    } else {
        (if (g[k] as int) != k {
            1nat
        } else {
            0nat
        }) + unfixed_from(g, k + 1)
    }
}

/// If every position unfixed in `g2` was already unfixed in `g1`, the count
/// cannot grow.
proof fn lemma_unfixed_le(g1: Seq<usize>, g2: Seq<usize>, k: int)
    requires
        0 <= k,
        g1.len() == g2.len(),
        forall|m: int| k <= m < g1.len() && (#[trigger] g2[m] as int) != m ==> (g1[m] as int) != m,
    ensures
        unfixed_from(g2, k) <= unfixed_from(g1, k),
    decreases g1.len() - k,
{
    if k < g1.len() {
        lemma_unfixed_le(g1, g2, k + 1);
    }
}

/// If moreover some position fixed in `g2` was unfixed in `g1`, the count
/// strictly drops.
proof fn lemma_unfixed_lt(g1: Seq<usize>, g2: Seq<usize>, k: int, p: int)
    requires
        0 <= k,
        g1.len() == g2.len(),
        forall|m: int| k <= m < g1.len() && (#[trigger] g2[m] as int) != m ==> (g1[m] as int) != m,
        k <= p < g1.len(),
        (g1[p] as int) != p,
        (g2[p] as int) == p,
    ensures
        unfixed_from(g2, k) < unfixed_from(g1, k),
    decreases g1.len() - k,
{
    if k == p {
        lemma_unfixed_le(g1, g2, k + 1);
    } else {
        lemma_unfixed_lt(g1, g2, k + 1, p);
    }
}

/// Relies on the standard library's `<[T]>::swap` (reached through `Vec`'s
/// slice deref): it exchanges the elements at the two given in-bounds
/// positions and leaves every other element in place.
#[verifier::external_body]
fn swap_nodes<T>(v: &mut Vec<T>, a: usize, b: usize)
    requires
        a < old(v).len(),
        b < old(v).len(),
    ensures
        final(v)@ == old(v)@.update(a as int, old(v)@[b as int]).update(b as int, old(v)@[a as int]),
{
    v.swap(a, b);
}

/// The node now sitting at position `k` is an original node whose assigned
/// destination (under the original generator `g0`) is the current generator
/// entry at `k`.  Swapping positions of `g` and of the array in lock-step
/// preserves this, and once `g` is the identity it says every node has
/// arrived.
spec fn placed<T>(g0: Seq<usize>, s0: Seq<T>, g: Seq<usize>, s: Seq<T>, k: int) -> bool {
    exists|m: int| 0 <= m < g0.len() && (#[trigger] g0[m]) == g[k] && s[k] == s0[m]
}

/// Cycle-retrace permuter: physically moves each node to the slot the
/// generator assigns it, walking every permutation cycle once, and restores
/// the generator to the identity in the process.  Each index is swapped into
/// its resting place at most once, so a cycle of length `l` costs exactly
/// `l - 1` swaps.
pub fn retrace<T>(nodes: &mut Vec<T>, g: &mut Vec<usize>)
    requires
        old(g)@.len() == old(nodes)@.len(),
        is_perm(old(g)@),
    ensures
        final(nodes)@.len() == old(nodes)@.len(),
        final(g)@.len() == old(g)@.len(),
        is_identity(final(g)@),
        forall|m: int|
            0 <= m < old(g)@.len() ==> final(nodes)@[#[trigger] old(g)@[m] as int] == old(
                nodes,
            )@[m],
        forall|v: int| 0 <= v < old(g)@.len() ==> #[trigger] covers(old(g)@, v),
{
    let ghost g0 = g@;
    let ghost s0 = nodes@;
    let n = nodes.len();
    proof {
        assert forall|k: int| 0 <= k < n implies #[trigger] placed(g0, s0, g@, nodes@, k) by {
            assert(0 <= k < n && g0[k] == g@[k] && nodes@[k] == s0[k]);
        }
    }
    let mut i: usize = 0;
    while i < n
        invariant
            n == s0.len(),
            g0.len() == n,
            g@.len() == n,
            nodes@.len() == n,
            i <= n,
            is_perm(g0),
            is_perm(g@),
            forall|k: int| 0 <= k < i ==> (#[trigger] g@[k] as int) == k,
            forall|k: int| 0 <= k < n ==> #[trigger] placed(g0, s0, g@, nodes@, k),
        decreases n - i,
    {
        while g[i] != i
            invariant
                n == s0.len(),
                g0.len() == n,
                g@.len() == n,
                nodes@.len() == n,
                i < n,
                is_perm(g0),
                is_perm(g@),
                forall|k: int| 0 <= k < i ==> (#[trigger] g@[k] as int) == k,
                forall|k: int| 0 <= k < n ==> #[trigger] placed(g0, s0, g@, nodes@, k),
            decreases unfixed_from(g@, i as int),
        {
            let j = g[i];
            proof {
                // j is in range because g is a permutation, and j > i because
                // every position below i is already fixed.
                assert((g@[i as int] as int) < n);
                if (j as int) < i {
                    assert(g@[j as int] == g@[i as int]);
                    assert(false);
                }
            }
            let ghost gb = g@;
            let ghost sb = nodes@;
            swap_nodes(nodes, i, j);
            swap_entries(g, i, j);
            proof {
                lemma_swap_perm(gb, i as int, j as int);
                assert forall|k: int| 0 <= k < n implies #[trigger] placed(g0, s0, g@, nodes@, k) by {
                    let kk = if k == i {
                        j as int
                    } else if k == j as int {
                        i as int
                    } else {
                        k
                    };
                    assert(g@[k] == gb[kk] && nodes@[k] == sb[kk]);
                    assert(placed(g0, s0, gb, sb, kk));
                    let m = choose|m: int| 0 <= m < n && (#[trigger] g0[m]) == gb[kk] && sb[kk] == s0[m];
                    assert(0 <= m < n && g0[m] == g@[k] && nodes@[k] == s0[m]);
                }
                // position j became fixed, position i stayed in [i, n):
                // the unfixed count strictly drops.
                assert(g@[j as int] as int == j);
                if gb[j as int] as int == j {
                    assert(false);
                }
                lemma_unfixed_lt(gb, g@, i as int, j as int);
            }
        }
        i += 1;
    }
    proof {
        assert forall|m: int| 0 <= m < n implies nodes@[#[trigger] g0[m] as int] == s0[m] by {
            let k = g0[m] as int;
            assert(placed(g0, s0, g@, nodes@, k));
            let m2 = choose|m2: int| 0 <= m2 < n && (#[trigger] g0[m2]) == g@[k] && nodes@[k] == s0[m2];
            assert(g@[k] as int == k);
            assert(g0[m2] as int == k);
            if m2 != m {
                assert(g0[m2] != g0[m]);
            }
        }
        assert forall|v: int| 0 <= v < n implies #[trigger] covers(g0, v) by {
            assert(placed(g0, s0, g@, nodes@, v));
            let m = choose|m: int| 0 <= m < n && (#[trigger] g0[m]) == g@[v] && nodes@[v] == s0[m];
            assert(g@[v] as int == v);
            assert(g0[m] as int == v);
        }
    }
}

/// The solver's goal at node `i`, considered settled for the child
/// positions below `jb`: the generator puts `i` no later than each of those
/// children.
spec fn parent_ok_upto<T: GraphNode>(g: Seq<usize>, s: Seq<T>, i: int, jb: int) -> bool {
    forall|j: int|
        0 <= j < jb ==> (g[i] as int) <= g[#[trigger] s[i].child_links()[j] as int] as int
}

/// The sibling half of the goal at node `i`, settled for first positions
/// below `jb`: the generator puts each such child no later than every child
/// after it in the list.
spec fn pairs_ok_upto<T: GraphNode>(g: Seq<usize>, s: Seq<T>, i: int, jb: int) -> bool {
    forall|j: int, k: int|
        0 <= j < jb && j < k < s[i].child_links().len() ==> (g[#[trigger] s[
            i].child_links()[j] as int] as int) <= g[#[trigger] s[i].child_links()[k] as int] as int
}

/// A full pass over node `i` would perform no swap.
spec fn node_settled<T: GraphNode>(g: Seq<usize>, s: Seq<T>, i: int) -> bool {
    parent_ok_upto(g, s, i, s[i].child_links().len() as int) && pairs_ok_upto(
        g,
        s,
        i,
        s[i].child_links().len() as int,
    )
}

/// A full pass over every node below `ib` would perform no swap.
spec fn settled_below<T: GraphNode>(g: Seq<usize>, s: Seq<T>, ib: int) -> bool {
    forall|i: int| 0 <= i < ib ==> #[trigger] node_settled(g, s, i)
}

/// At a clean fixed point of the solver the weak inequalities are in fact
/// strict: a ranking rules out a node listed as its own child and a child
/// listed twice, and a permutation never repeats a value elsewhere.
proof fn lemma_settled_strict<T: GraphNode>(g: Seq<usize>, s: Seq<T>, w: Seq<int>)
    requires
        g.len() == s.len(),
        is_perm(g),
        links_in_range(s),
        rank_respects(s, w),
        settled_below(g, s, s.len() as int),
    ensures
        arranges(g, s),
{
    let n = s.len() as int;
    assert forall|i: int, j: int|
        0 <= i < n && 0 <= j < s[i].child_links().len() implies (g[i] as int) < g[#[trigger] s[
        i].child_links()[j] as int] as int by {
        let a = s[i].child_links()[j] as int;
        assert(node_settled(g, s, i));
        assert(w[i] > w[a]);
        assert(a < n);
        assert((g[i] as int) <= g[a] as int);
        if i != a {
            assert(g[i] != g[a]);
        }
    }
    assert forall|i: int, j: int, k: int|
        0 <= i < n && 0 <= j < k < s[i].child_links().len() implies (g[#[trigger] s[
        i].child_links()[j] as int] as int) < g[#[trigger] s[i].child_links()[k] as int] as int by {
        let a = s[i].child_links()[j] as int;
        let b = s[i].child_links()[k] as int;
        assert(node_settled(g, s, i));
        assert(w[a] > w[b]);
        assert(a < n && b < n);
        assert((g[a] as int) <= g[b] as int);
        if a != b {
            assert(g[a] != g[b]);
        }
    }
}

/// Permutation solver: computes a generator `g` -- a permutation of
/// `[0, n)` sending original indices to final indices -- that satisfies both
/// ordering constraints of the graph, by repeated full passes of
/// constraint-driven swaps until a pass performs none.  It only reads the
/// nodes; on an already-normalized graph it performs no swap at all and
/// returns the identity.
pub fn solve<T: GraphNode>(nodes: &Vec<T>) -> (g: Vec<usize>)
    requires
        links_in_range(nodes@),
        orderable(nodes@),
    ensures
        g@.len() == nodes@.len(),
        is_perm(g@),
        arranges(g@, nodes@),
        normalized(nodes@) ==> is_identity(g@),
{
    let ghost s = nodes@;
    let ghost w = choose|w: Seq<int>| rank_respects(s, w);
    let n = nodes.len();
    let mut g = identity_perm(n);
    loop
        invariant
            nodes@ == s,
            n == s.len(),
            g@.len() == n,
            is_perm(g@),
            rank_respects(s, w),
            links_in_range(s),
            normalized(s) ==> is_identity(g@),
        ensures
            g@.len() == n,
            is_perm(g@),
            settled_below(g@, s, n as int),
            normalized(s) ==> is_identity(g@),
        decreases phi(g@, w, 0),
    {
        let ghost gp = g@;
        let mut changed = false;
        let mut i: usize = 0;
        while i < n
            invariant
                nodes@ == s,
                n == s.len(),
                g@.len() == n,
                is_perm(g@),
                rank_respects(s, w),
                links_in_range(s),
                i <= n,
                phi(g@, w, 0) <= phi(gp, w, 0),
                changed ==> phi(g@, w, 0) < phi(gp, w, 0),
                !changed ==> g@ == gp,
                !changed ==> settled_below(g@, s, i as int),
                normalized(s) ==> (is_identity(g@) && !changed),
            decreases n - i,
        {
            let cn = nodes[i].child_count();
            let mut j: usize = 0;
            while j < cn
                invariant
                    nodes@ == s,
                    n == s.len(),
                    g@.len() == n,
                    is_perm(g@),
                    rank_respects(s, w),
                    links_in_range(s),
                    i < n,
                    j <= cn,
                    cn == s[i as int].child_links().len(),
                    phi(g@, w, 0) <= phi(gp, w, 0),
                    changed ==> phi(g@, w, 0) < phi(gp, w, 0),
                    !changed ==> g@ == gp,
                    !changed ==> settled_below(g@, s, i as int),
                    !changed ==> parent_ok_upto(g@, s, i as int, j as int),
                    !changed ==> pairs_ok_upto(g@, s, i as int, j as int),
                    normalized(s) ==> (is_identity(g@) && !changed),
                decreases cn - j,
            {
                let a = nodes[i].child_at(j);
                proof {
                    assert((#[trigger] s[i as int].child_links()[j as int] as int) < n);
                    assert(w[i as int] > w[a as int]);
                }
                if g[i] > g[a] {
                    proof {
                        if normalized(s) {
                            assert((g@[i as int] as int) == i as int);
                            assert((g@[a as int] as int) == a as int);
                            assert((i as int) < s[i as int].child_links()[j as int] as int);
                            assert(false);
                        }
                        assert(i as int != a as int);
                        lemma_phi_swap(g@, w, i as int, a as int);
                    }
                    let ghost gb = g@;
                    swap_entries(&mut g, i, a);
                    proof {
                        lemma_swap_perm(gb, i as int, a as int);
                    }
                    changed = true;
                }
                let mut k = j + 1;
                while k < cn
                    invariant
                        nodes@ == s,
                        n == s.len(),
                        g@.len() == n,
                        is_perm(g@),
                        rank_respects(s, w),
                        links_in_range(s),
                        i < n,
                        j < cn,
                        j < k,
                        k <= cn,
                        cn == s[i as int].child_links().len(),
                        a == s[i as int].child_links()[j as int],
                        (a as int) < n,
                        phi(g@, w, 0) <= phi(gp, w, 0),
                        changed ==> phi(g@, w, 0) < phi(gp, w, 0),
                        !changed ==> g@ == gp,
                        !changed ==> settled_below(g@, s, i as int),
                        !changed ==> parent_ok_upto(g@, s, i as int, j as int),
                        !changed ==> pairs_ok_upto(g@, s, i as int, j as int),
                        !changed ==> (g@[i as int] as int) <= g@[a as int] as int,
                        !changed ==> forall|k2: int|
                            j < k2 < k ==> (g@[a as int] as int) <= g@[#[trigger] s[
                                i as int].child_links()[k2] as int] as int,
                        normalized(s) ==> (is_identity(g@) && !changed),
                    decreases cn - k,
                {
                    let b = nodes[i].child_at(k);
                    proof {
                        assert((#[trigger] s[i as int].child_links()[k as int] as int) < n);
                        assert(w[a as int] > w[b as int]);
                    }
                    if g[a] > g[b] {
                        proof {
                            if normalized(s) {
                                assert((g@[a as int] as int) == a as int);
                                assert((g@[b as int] as int) == b as int);
                                assert((s[i as int].child_links()[j as int] as int) < s[
                                    i as int].child_links()[k as int] as int);
                                assert(false);
                            }
                            assert(a as int != b as int);
                            lemma_phi_swap(g@, w, a as int, b as int);
                        }
                        let ghost gb = g@;
                        swap_entries(&mut g, a, b);
                        proof {
                            lemma_swap_perm(gb, a as int, b as int);
                        }
                        changed = true;
                    }
                    k += 1;
                }
                proof {
                    if !changed {
                        assert forall|j2: int| 0 <= j2 < j + 1 implies (g@[i as int] as int)
                            <= g@[#[trigger] s[i as int].child_links()[j2] as int] as int by {
                            if j2 == j as int {
                                assert(s[i as int].child_links()[j2] == a);
                            }
                        }
                        assert forall|j2: int, k2: int|
                            0 <= j2 < j + 1 && j2 < k2 < s[i as int].child_links().len() implies (
                        g@[#[trigger] s[i as int].child_links()[j2] as int] as int) <= g@[
                            #[trigger] s[i as int].child_links()[k2] as int] as int by {
                            if j2 == j as int {
                                assert(s[i as int].child_links()[j2] == a);
                            }
                        }
                        assert(parent_ok_upto(g@, s, i as int, j as int + 1));
                        assert(pairs_ok_upto(g@, s, i as int, j as int + 1));
                    }
                }
                j += 1;
            }
            proof {
                if !changed {
                    assert(node_settled(g@, s, i as int));
                    assert forall|i2: int| 0 <= i2 < i + 1 implies #[trigger] node_settled(
                        g@,
                        s,
                        i2,
                    ) by {}
                }
            }
            i += 1;
        }
        if !changed {
            break;
        }
        proof {
            lemma_phi_nonneg(g@, w, 0);
        }
    }
    proof {
        lemma_settled_strict(g@, s, w);
    }
    g
}


/// Link remapper: rewrites every node's parent slot and every entry of its
/// child list through the generator, replacing each original index `x` by
/// `g[x]`.  It runs strictly after the solver and strictly before any
/// physical movement: the links are translated while every node still sits
/// at its original position.
pub fn remap<T: GraphNode>(nodes: &mut Vec<T>, g: &Vec<usize>)
    requires
        g@.len() == old(nodes)@.len(),
        links_in_range(old(nodes)@),
    ensures
        final(nodes)@.len() == old(nodes)@.len(),
        forall|i: int|
            0 <= i < old(nodes)@.len() ==> #[trigger] final(nodes)@[i].parent_link() == relink_opt(
                old(nodes)@[i].parent_link(),
                g@,
            ),
        forall|i: int|
            0 <= i < old(nodes)@.len() ==> #[trigger] final(nodes)@[i].child_links() == relink_all(
                old(nodes)@[i].child_links(),
                g@,
            ),
{
    let ghost s0 = nodes@;
    let n = nodes.len();
    let mut i: usize = 0;
    while i < n
        invariant
            n == s0.len(),
            nodes@.len() == n,
            g@.len() == n,
            links_in_range(s0),
            i <= n,
            forall|i2: int|
                0 <= i2 < i ==> #[trigger] nodes@[i2].parent_link() == relink_opt(
                    s0[i2].parent_link(),
                    g@,
                ),
            forall|i2: int|
                0 <= i2 < i ==> #[trigger] nodes@[i2].child_links() == relink_all(
                    s0[i2].child_links(),
                    g@,
                ),
            forall|i2: int| i <= i2 < n ==> #[trigger] nodes@[i2].parent_link() == s0[i2].parent_link(),
            forall|i2: int| i <= i2 < n ==> #[trigger] nodes@[i2].child_links() == s0[i2].child_links(),
        decreases n - i,
    {
        let p = nodes[i].parent_slot();
        match p {
            Some(px) => {
                proof {
                    assert(nodes@[i as int].parent_link() == s0[i as int].parent_link());
                    assert(s0[i as int].parent_link() == Some(px));
                    assert((px as int) < n);
                }
                let v = g[px];
                let node = &mut nodes[i];
                node.set_parent_slot(Some(v));
            },
            None => {},
        }
        let cn = nodes[i].child_count();
        let mut j: usize = 0;
        while j < cn
            invariant
                n == s0.len(),
                nodes@.len() == n,
                g@.len() == n,
                links_in_range(s0),
                i < n,
                j <= cn,
                cn == s0[i as int].child_links().len(),
                nodes@[i as int].child_links().len() == cn,
                nodes@[i as int].parent_link() == relink_opt(s0[i as int].parent_link(), g@),
                forall|i2: int|
                    0 <= i2 < i ==> #[trigger] nodes@[i2].parent_link() == relink_opt(
                        s0[i2].parent_link(),
                        g@,
                    ),
                forall|i2: int|
                    0 <= i2 < i ==> #[trigger] nodes@[i2].child_links() == relink_all(
                        s0[i2].child_links(),
                        g@,
                    ),
                forall|i2: int| i < i2 < n ==> #[trigger] nodes@[i2].parent_link() == s0[i2].parent_link(),
                forall|i2: int| i < i2 < n ==> #[trigger] nodes@[i2].child_links() == s0[i2].child_links(),
                forall|j2: int|
                    0 <= j2 < j ==> (#[trigger] nodes@[i as int].child_links()[j2]) == relink_all(
                        s0[i as int].child_links(),
                        g@,
                    )[j2],
                forall|j2: int|
                    j <= j2 < cn ==> (#[trigger] nodes@[i as int].child_links()[j2]) == s0[
                        i as int].child_links()[j2],
            decreases cn - j,
        {
            let c = nodes[i].child_at(j);
            proof {
                assert(nodes@[i as int].child_links()[j as int] == s0[i as int].child_links()[
                    j as int]);
                assert((#[trigger] s0[i as int].child_links()[j as int] as int) < n);
            }
            let v = g[c];
            let node = &mut nodes[i];
            node.set_child_at(j, v);
            j += 1;
        }
        proof {
            assert(nodes@[i as int].child_links() =~= relink_all(s0[i as int].child_links(), g@));
        }
        i += 1;
    }
}


/// Performs the in-place topological normalization on any node type that
/// exposes the parent/children slots: after the call every stored child
/// index is greater than the index of the node holding it, every node's
/// recorded parent sits at a smaller index than the node, and every child
/// list is strictly ascending.  The nodes are only permuted and their index
/// fields translated: some permutation `g` carries the original layout to
/// the final one, so the parent-child relation is preserved as a relation.
/// An input that already satisfies both invariants is left with all its
/// links unchanged.
pub fn sort<T: GraphNode>(nodes: &mut Vec<T>)
    requires
        links_in_range(old(nodes)@),
        linked(old(nodes)@),
        orderable(old(nodes)@),
    ensures
        final(nodes)@.len() == old(nodes)@.len(),
        normalized(final(nodes)@),
        parent_before_child(final(nodes)@),
        links_in_range(final(nodes)@),
        linked(final(nodes)@),
        exists|g: Seq<usize>|
            is_perm(g) && #[trigger] relabeling(old(nodes)@, final(nodes)@, g),
        normalized(old(nodes)@) ==> same_links(old(nodes)@, final(nodes)@),
{
    let ghost s0 = nodes@;
    let len = nodes.len();
    let ghost n = len as int;
    let mut g = solve(nodes);
    let ghost gs = g@;
    remap(nodes, &g);
    let ghost s1 = nodes@;
    retrace(nodes, &mut g);
    let ghost t = nodes@;
    proof {
        // The relabeling carried out: node m went to gs[m] with its links
        // translated through gs.
        assert forall|m: int|
            0 <= m < n implies #[trigger] t[gs[m] as int].parent_link() == relink_opt(
            s0[m].parent_link(),
            gs,
        ) by {
            assert(t[gs[m] as int] == s1[m]);
            assert(s1[m].parent_link() == relink_opt(s0[m].parent_link(), gs));
        }
        assert forall|m: int|
            0 <= m < n implies #[trigger] t[gs[m] as int].child_links() == relink_all(
            s0[m].child_links(),
            gs,
        ) by {
            assert(t[gs[m] as int] == s1[m]);
            assert(s1[m].child_links() == relink_all(s0[m].child_links(), gs));
        }
        assert(relabeling(s0, t, gs));
        // Each final position i holds the relabeled image of some original
        // node m, so the two ordering invariants read off `arranges`.
        assert forall|i: int, j: int|
            0 <= i < n && 0 <= j < t[i].child_links().len() implies i < (#[trigger] t[
            i].child_links()[j] as int) && (t[i].child_links()[j] as int) < n by {
            assert(covers(gs, i));
            let m = choose|m: int| 0 <= m < gs.len() && (#[trigger] gs[m] as int) == i;
            assert(t[gs[m] as int].child_links() == relink_all(s0[m].child_links(), gs));
            assert(t[i].child_links() == relink_all(s0[m].child_links(), gs));
            assert((#[trigger] s0[m].child_links()[j] as int) < n);
            assert(relink_all(s0[m].child_links(), gs)[j] == gs[s0[m].child_links()[j] as int]);
        }
        assert forall|i: int, j: int, k: int|
            0 <= i < n && 0 <= j < k < t[i].child_links().len() implies (#[trigger] t[
            i].child_links()[j] as int) < (#[trigger] t[i].child_links()[k] as int) by {
            assert(covers(gs, i));
            let m = choose|m: int| 0 <= m < gs.len() && (#[trigger] gs[m] as int) == i;
            assert(t[gs[m] as int].child_links() == relink_all(s0[m].child_links(), gs));
            assert(t[i].child_links() == relink_all(s0[m].child_links(), gs));
            assert((#[trigger] s0[m].child_links()[j] as int) < n);
            assert((#[trigger] s0[m].child_links()[k] as int) < n);
            assert(relink_all(s0[m].child_links(), gs)[j] == gs[s0[m].child_links()[j] as int]);
            assert(relink_all(s0[m].child_links(), gs)[k] == gs[s0[m].child_links()[k] as int]);
        }
        // Parent slots: below the node, in range, and still matched by the
        // parent's child list.
        assert forall|i: int|
            0 <= i < n && #[trigger] t[i].parent_link() is Some implies {
            let q = t[i].parent_link()->0 as int;
            0 <= q < i && q < n && t[q].child_links().contains(i as usize)
        } by {
            assert(covers(gs, i));
            let m = choose|m: int| 0 <= m < gs.len() && (#[trigger] gs[m] as int) == i;
            assert(t[gs[m] as int].parent_link() == relink_opt(s0[m].parent_link(), gs));
            assert(t[i].parent_link() == relink_opt(s0[m].parent_link(), gs));
            assert(s0[m].parent_link() is Some);
            let p = s0[m].parent_link()->0 as int;
            assert(p < n);
            assert(t[i].parent_link()->0 == gs[p]);
            assert(s0[p].child_links().contains(m as usize));
            let jj = choose|jj: int|
                0 <= jj < s0[p].child_links().len() && s0[p].child_links()[jj] == m as usize;
            assert((gs[p] as int) < gs[#[trigger] s0[p].child_links()[jj] as int] as int);
            assert(t[gs[p] as int].child_links() == relink_all(s0[p].child_links(), gs));
            assert(relink_all(s0[p].child_links(), gs)[jj] == gs[s0[p].child_links()[jj] as int]);
            assert(t[gs[p] as int].child_links()[jj] == gs[m]);
            assert(t[gs[p] as int].child_links().contains(i as usize));
        }
        // An already-normalized input comes back with every link as it was.
        if normalized(s0) {
            assert(is_identity(gs));
            assert forall|i: int| 0 <= i < n implies #[trigger] t[i].parent_link() == s0[
                i].parent_link() by {
                assert(gs[i] as int == i);
                assert(t[gs[i] as int] == s1[i]);
                assert(s1[i].parent_link() == relink_opt(s0[i].parent_link(), gs));
                if s0[i].parent_link() is Some {
                    let pp = s0[i].parent_link()->0 as int;
                    assert(pp < n);
                    assert(gs[pp] as int == pp);
                }
            }
            assert forall|i: int| 0 <= i < n implies #[trigger] t[i].child_links() == s0[
                i].child_links() by {
                assert(gs[i] as int == i);
                assert(t[gs[i] as int] == s1[i]);
                assert(s1[i].child_links() == relink_all(s0[i].child_links(), gs));
                assert forall|j: int|
                    0 <= j < s0[i].child_links().len() implies relink_all(
                    s0[i].child_links(),
                    gs,
                )[j] == s0[i].child_links()[j] by {
                    assert((#[trigger] s0[i].child_links()[j] as int) < n);
                    assert(gs[s0[i].child_links()[j] as int] == s0[i].child_links()[j]);
                }
                assert(relink_all(s0[i].child_links(), gs) =~= s0[i].child_links());
            }
        }
    }
}

/// Normalizes an array of conventional `Node` slots in place: every child
/// ends up stored after its parent and every child list strictly ascending,
/// by pure permutation and index translation (see `sort`).
pub fn fix(nodes: &mut Vec<Node>)
    requires
        links_in_range(old(nodes)@),
        linked(old(nodes)@),
        orderable(old(nodes)@),
    ensures
        final(nodes)@.len() == old(nodes)@.len(),
        normalized(final(nodes)@),
        parent_before_child(final(nodes)@),
        links_in_range(final(nodes)@),
        linked(final(nodes)@),
        exists|g: Seq<usize>|
            is_perm(g) && #[trigger] relabeling(old(nodes)@, final(nodes)@, g),
        normalized(old(nodes)@) ==> same_links(old(nodes)@, final(nodes)@),
{
    sort(nodes)
}


} // verus!
