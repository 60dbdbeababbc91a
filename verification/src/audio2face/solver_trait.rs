//! What the lip-sync node asks of a blendshape solver.

use vstd::prelude::*;

use crate::audio2face::active_set::zeros;
use crate::float_ops::FloatOps;

verus! {

/// The model of an optional vector.
pub open spec fn opt_view(r: Option<Vec<u32>>) -> Option<Seq<u32>> {
    match r {
        Some(v) => Some(v@),
        None => None,
    }
}

/// Turns a masked vertex delta into blendshape weights, pulled towards the
/// weights of the frame before.
pub trait BlendshapeSolver: Sized {
    /// The arithmetic that the solver computes with.
    type Ops: FloatOps;

    /// The solver's own invariant.
    spec fn valid(&self) -> bool;

    /// Number of vertex components in a delta.
    spec fn position_count(&self) -> nat;

    /// Number of weights in a solution.
    spec fn weight_count(&self) -> nat;

    /// Weights that the next solution is pulled towards.
    spec fn temporal(&self) -> Seq<u64>;

    /// Both solvers pose the same system, whatever they are pulled towards.
    spec fn same_system(&self, other: &Self) -> bool;

    /// `self` may answer `delta` with `r` and go on as `after`. `r` is
    /// `None` where the solver gets stuck.
    spec fn solves(&self, delta: Seq<u32>, after: &Self, r: Option<Seq<u32>>) -> bool;

    /// Solves for the weights of one delta and remembers them as the next
    /// temporal pull.
    fn solve(&mut self, delta: &[u32]) -> (r: Option<Vec<u32>>)
        requires
            old(self).valid(),
            delta@.len() == old(self).position_count(),
        ensures
            final(self).valid(),
            final(self).position_count() == old(self).position_count(),
            final(self).weight_count() == old(self).weight_count(),
            final(self).same_system(old(self)),
            old(self).solves(delta@, final(self), opt_view(r)),
            r matches Some(w) ==> w@.len() == old(self).weight_count(),
    ;

    /// Forgets the temporal pull.
    fn reset_temporal(&mut self)
        requires
            old(self).valid(),
        ensures
            final(self).valid(),
            final(self).position_count() == old(self).position_count(),
            final(self).weight_count() == old(self).weight_count(),
            final(self).same_system(old(self)),
            final(self).temporal() == zeros(old(self).weight_count()),
    ;

    /// Snapshot of the temporal pull.
    fn save_temporal(&self) -> (r: Vec<u64>)
        requires
            self.valid(),
        ensures
            r@ == self.temporal(),
            r@.len() == self.weight_count(),
    ;

    /// Restores a snapshot of the temporal pull.
    fn restore_temporal(&mut self, saved: &[u64])
        requires
            old(self).valid(),
            saved@.len() == old(self).weight_count(),
        ensures
            final(self).valid(),
            final(self).position_count() == old(self).position_count(),
            final(self).weight_count() == old(self).weight_count(),
            final(self).same_system(old(self)),
            final(self).temporal() == saved@,
    ;

    /// Whether deltas of `count` vertex components can be solved for.
    fn accepts(&self, count: usize) -> (r: bool)
        requires
            self.valid(),
        ensures
            r == (count == self.position_count()),
    ;

    /// Number of weights in a solution.
    fn active_count(&self) -> (r: usize)
        requires
            self.valid(),
        ensures
            r == self.weight_count(),
    ;
}

} // verus!
