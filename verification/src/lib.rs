//! In-place normalization of a forest-shaped DAG stored as a flat array of
//! nodes addressed by integer index.
//!
//! Each node holds an optional parent index and an ordered list of child
//! indices.  Normalization permutes the array (never reallocating it) so that
//! afterwards every child sits at a strictly greater index than its parent and
//! every child list is strictly ascending.  The permutation is computed first
//! on a separate generator array, then the link fields are rewritten through
//! it, and finally the nodes are swapped into place by retracing the
//! permutation's cycles with the minimum number of swaps.

pub mod graph;
pub mod node;
pub mod normalize;
pub mod perm;
