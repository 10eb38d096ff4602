//! Permutations of `[0, n)` represented as sequences of indices, together
//! with the executable swap operations the normalization algorithm is built
//! from.

use vstd::prelude::*;
use vstd::pervasive::VecAdditionalExecFns;

verus! {

/// `g` is a bijection from `[0, g.len())` onto itself: every entry is in
/// range and no two entries coincide.
pub open spec fn is_perm(g: Seq<usize>) -> bool {
    &&& forall|i: int| 0 <= i < g.len() ==> (#[trigger] g[i] as int) < g.len()
    &&& forall|i: int, j: int|
        0 <= i < g.len() && 0 <= j < g.len() && i != j ==> #[trigger] g[i] != #[trigger] g[j]
}

/// Some position of `g` holds the value `v`.
pub open spec fn covers(g: Seq<usize>, v: int) -> bool {
    exists|m: int| 0 <= m < g.len() && (#[trigger] g[m] as int) == v
}

/// `g` maps every index to itself.
pub open spec fn is_identity(g: Seq<usize>) -> bool {
    forall|i: int| 0 <= i < g.len() ==> (#[trigger] g[i] as int) == i
}

/// Builds the identity permutation of `[0, n)`.
pub fn identity_perm(n: usize) -> (g: Vec<usize>)
    ensures
        g@.len() == n,
        is_identity(g@),
        is_perm(g@),
{
    let mut g: Vec<usize> = Vec::new();
    let mut i: usize = 0;
    while i < n
        invariant
            i <= n,
            g@.len() == i,
            forall|k: int| 0 <= k < i ==> (#[trigger] g@[k] as int) == k,
        decreases n - i,
    {
        g.push(i);
        i += 1;
    }
    g
}

/// Exchanges the entries of `g` at positions `a` and `b`.
pub fn swap_entries(g: &mut Vec<usize>, a: usize, b: usize)
    requires
        a < old(g).len(),
        b < old(g).len(),
    ensures
        final(g)@ == old(g)@.update(a as int, old(g)@[b as int]).update(b as int, old(g)@[a as int]),
        final(g)@.len() == old(g)@.len(),
{
    let x = g[a];
    let y = g[b];
    g.set(a, y);
    g.set(b, x);
}

/// Swapping two entries of a permutation leaves it a permutation.
pub proof fn lemma_swap_perm(g: Seq<usize>, a: int, b: int)
    requires
        is_perm(g),
        0 <= a < g.len(),
        0 <= b < g.len(),
    ensures
        is_perm(g.update(a, g[b]).update(b, g[a])),
{
    let h = g.update(a, g[b]).update(b, g[a]);
    assert forall|i: int, j: int|
        0 <= i < h.len() && 0 <= j < h.len() && i != j implies #[trigger] h[i] != #[trigger] h[j] by {
        assert(h[i] == g[if i == a { b } else if i == b { a } else { i }]);
        assert(h[j] == g[if j == a { b } else if j == b { a } else { j }]);
    }
}

} // verus!
