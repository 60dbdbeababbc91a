//! Bounded-variable least squares over the blendshape weights.
//!
//! Slower per frame than projected gradient descent, but more accurate on
//! tightly coupled blendshapes, where several poses produce overlapping
//! vertex deltas:
//!
//! 1. Start with all variables fixed at their lower bound.
//! 2. Repeat:
//!    a. Compute the gradient `g = A x - b`.
//!    b. Find the most violating fixed variable. If there is none, stop.
//!    c. Free that variable.
//!    d. Solve the unconstrained sub-problem on the free set. If the
//!       sub-solution lies inside `[0, 1]`, commit. Otherwise step part of
//!       the way, fix the variable that met its bound and go on with the
//!       rest.

use std::marker::PhantomData;

use vstd::prelude::*;

use crate::audio2face::active_set::{minimise, minimises, row, row_of, zeros, all_fixed};
use crate::audio2face::solver_math::{diagonal_is, regularized, squared, transposed, SolverMath};
use crate::audio2face::solver_trait::BlendshapeSolver;
use crate::float_bits::{less32, less64, lt32, lt64, narrows, widens};
use crate::float_convert::{narrow, widen};
use crate::float_ops::{
    add64, added64, div64, divided64, dot, dot_is, mul64, multiplied64, FloatOps,
};

verus! {

/// Most variables freed in one solve.
pub const MAX_OUTER_ITERATIONS: usize = 200;

/// Model of a [`BvlsBlendshapeSolver`].
#[verifier::ext_equal]
pub ghost struct BvlsSystem {
    /// Number of weights, `K`.
    pub active_count: nat,
    /// Number of vertex components, `V`.
    pub masked_position_count: nat,
    /// Transposed delta matrix, `K` rows of `V` entries.
    pub dt: Seq<u64>,
    /// Regularised normal matrix, `K` rows of `K` entries.
    pub a: Seq<u64>,
    /// Weight of the temporal pull.
    pub temporal_scale: u64,
    /// Weights that the next solution is pulled towards.
    pub prev_weights: Seq<u64>,
}

impl BvlsSystem {
    /// Every part has the size that the counts give it.
    pub open spec fn valid(self) -> bool {
        &&& self.dt.len() == self.active_count * self.masked_position_count
        &&& self.a.len() == self.active_count * self.active_count
        &&& self.prev_weights.len() == self.active_count
    }

    /// The system with another temporal pull.
    pub open spec fn pulled_to(self, weights: Seq<u64>) -> BvlsSystem {
        BvlsSystem { prev_weights: weights, ..self }
    }

    /// `r` is entry `i` of the right-hand side for the widened delta `d`:
    /// row `i` of the transposed deltas times `d`, plus the temporal pull.
    pub open spec fn target_is<F: FloatOps>(self, d: Seq<u64>, i: int, r: u64) -> bool {
        exists|sum: u64, t: u64|
            {
                &&& dot_is::<F>(
                    row(self.dt, self.masked_position_count as int, i),
                    d,
                    0,
                    self.masked_position_count as int,
                    sum,
                )
                &&& #[trigger] multiplied64::<F>(self.temporal_scale, self.prev_weights[i], t)
                &&& #[trigger] added64::<F>(sum, t, r)
            }
    }

    /// `d` is `delta` in binary64, `b` the right-hand side it gives, and
    /// minimising from all variables fixed at zero ends with `out`.
    pub open spec fn minimum_through<F: FloatOps>(
        self,
        delta: Seq<u32>,
        d: Seq<u64>,
        b: Seq<u64>,
        out: Option<Seq<u64>>,
    ) -> bool {
        &&& d.len() == delta.len()
        &&& forall|j: int| 0 <= j < delta.len() ==> widens(#[trigger] delta[j], d[j])
        &&& b.len() == self.active_count
        &&& forall|i: int| 0 <= i < b.len() ==> self.target_is::<F>(d, i, #[trigger] b[i])
        &&& minimises::<F>(
            MAX_OUTER_ITERATIONS as nat,
            self.a,
            b,
            zeros(b.len()),
            all_fixed(b.len()),
            out,
        )
    }

    /// The minimisation for `delta` ends with `out`.
    pub open spec fn minimum_is<F: FloatOps>(
        self,
        delta: Seq<u32>,
        out: Option<Seq<u64>>,
    ) -> bool {
        exists|d: Seq<u64>, b: Seq<u64>| #[trigger] self.minimum_through::<F>(delta, d, b, out)
    }

    /// The system answers `delta` with `r` and goes on as `after`: the
    /// minimum becomes the next temporal pull, and `r` is the minimum in
    /// binary32. Where the minimisation gets stuck nothing changes.
    pub open spec fn solves<F: FloatOps>(
        self,
        delta: Seq<u32>,
        after: BvlsSystem,
        r: Option<Seq<u32>>,
    ) -> bool {
        match r {
            Some(w) => {
                &&& self.minimum_is::<F>(delta, Some(after.prev_weights))
                &&& after == self.pulled_to(after.prev_weights)
                &&& w.len() == after.prev_weights.len()
                &&& forall|i: int|
                    0 <= i < w.len() ==> narrows(after.prev_weights[i], #[trigger] w[i])
            },
            None => {
                &&& self.minimum_is::<F>(delta, None)
                &&& after == self
            },
        }
    }
}

/// Active-set solver for the blendshape weights.
#[verifier::reject_recursive_types(F)]
pub struct BvlsBlendshapeSolver<F: FloatOps> {
    active_count: usize,
    masked_position_count: usize,
    dt: Vec<u64>,
    a: Vec<u64>,
    temporal_scale: u64,
    prev_weights: Vec<u64>,
    ops: PhantomData<F>,
}

impl<F: FloatOps> View for BvlsBlendshapeSolver<F> {
    type V = BvlsSystem;

    closed spec fn view(&self) -> BvlsSystem {
        BvlsSystem {
            active_count: self.active_count as nat,
            masked_position_count: self.masked_position_count as nat,
            dt: self.dt@,
            a: self.a@,
            temporal_scale: self.temporal_scale,
            prev_weights: self.prev_weights@,
        }
    }
}

/// `r` scales the regularisation to the size of the face: the squared ratio
/// of its bounding box to the template's, or zero if either has no extent.
pub open spec fn bounding_box_scale_is<F: FloatOps>(
    bb_size: u64,
    template_bb_size: u32,
    r: u64,
) -> bool {
    if less64(0, bb_size) && less32(0, template_bb_size) {
        exists|t: u64, q: u64|
            {
                &&& #[trigger] widens(template_bb_size, t)
                &&& #[trigger] divided64::<F>(bb_size, t, q)
                &&& multiplied64::<F>(q, q, r)
            }
    } else {
        r == 0
    }
}

/// Scale of the regularisation for a face with bounding-box diagonal
/// `bb_size`.
pub fn bounding_box_scale<F: FloatOps>(bb_size: u64, template_bb_size: u32) -> (r: u64)
    ensures
        bounding_box_scale_is::<F>(bb_size, template_bb_size, r),
        !less64(0, bb_size) || !less32(0, template_bb_size) ==> r == 0,
        less64(0, bb_size) && less32(0, template_bb_size) ==> exists|t: u64, q: u64|
            {
                &&& #[trigger] widens(template_bb_size, t)
                &&& #[trigger] divided64::<F>(bb_size, t, q)
                &&& multiplied64::<F>(q, q, r)
            },
{
    if lt64(0, bb_size) && lt32(0, template_bb_size) {
        let t: u64 = widen(template_bb_size);
        let q: u64 = div64::<F>(bb_size, t);
        mul64::<F>(q, q)
    } else {
        0
    }
}

fn fills(len: usize, rows: usize, columns: usize) -> (r: bool)
    ensures
        r == (len == rows * columns),
{
    match rows.checked_mul(columns) {
        Some(n) => len == n,
        None => false,
    }
}

/// What is computed on the way to a solver.
pub ghost struct Setup {
    pub dt: Vec<u64>,
    pub product: Vec<u64>,
    pub bb_size: u64,
    pub scale: u64,
    pub a: Vec<u64>,
    pub temporal_scale: u64,
}

impl Setup {
    /// Whether these are the matrices for the given poses, as `M` computes
    /// them: the transpose, its product, and that with a regularisation that
    /// is scaled to the size of the face.
    pub open spec fn goes_into<F: FloatOps, M: SolverMath>(
        self,
        delta_matrix: &Vec<u32>,
        v: usize,
        k: usize,
        neutral: &Vec<u32>,
        template_bb_size: u32,
        strengths: (u32, u32, u32),
    ) -> bool {
        &&& transposed::<M>(delta_matrix, v, k, self.dt)
        &&& squared::<M>(&self.dt, k, v, self.product)
        &&& diagonal_is::<M>(neutral, self.bb_size)
        &&& bounding_box_scale_is::<F>(self.bb_size, template_bb_size, self.scale)
        &&& regularized::<M>(
            self.product,
            k,
            self.scale,
            strengths,
            (self.a, self.temporal_scale),
        )
    }

    /// The system that these matrices pose, where they have the right sizes.
    pub open spec fn system(self, v: usize, k: usize) -> Option<BvlsSystem> {
        if self.dt@.len() == k * v && self.a@.len() == k * k {
            Some(
                BvlsSystem {
                    active_count: k as nat,
                    masked_position_count: v as nat,
                    dt: self.dt@,
                    a: self.a@,
                    temporal_scale: self.temporal_scale,
                    prev_weights: zeros(k as nat),
                },
            )
        } else {
            None
        }
    }
}

/// Whether `r` is the system that a solver is built with for the given poses.
pub open spec fn set_up_is<F: FloatOps, M: SolverMath>(
    delta_matrix: &Vec<u32>,
    v: usize,
    k: usize,
    neutral: &Vec<u32>,
    template_bb_size: u32,
    strengths: (u32, u32, u32),
    r: Option<BvlsSystem>,
) -> bool {
    exists|made: Setup| #[trigger]
        made.goes_into::<F, M>(delta_matrix, v, k, neutral, template_bb_size, strengths) && r
            == made.system(v, k)
}

impl<F: FloatOps> BvlsBlendshapeSolver<F> {
    /// Builds a solver without a temporal pull for the `masked_position_count`
    /// by `active_count` matrix of pose displacements. None where `M` gives a
    /// matrix of another size than it should.
    pub fn new<M: SolverMath>(
        delta_matrix: &Vec<u32>,
        masked_position_count: usize,
        active_count: usize,
        masked_neutral_flat: &Vec<u32>,
        template_bb_size: u32,
        strength_l2: u32,
        strength_l1: u32,
        strength_temporal: u32,
    ) -> (r: Option<Self>)
        requires
            delta_matrix@.len() == masked_position_count * active_count,
        ensures
            r matches Some(s) ==> s.valid(),
            set_up_is::<F, M>(
                delta_matrix,
                masked_position_count,
                active_count,
                masked_neutral_flat,
                template_bb_size,
                (strength_l2, strength_l1, strength_temporal),
                match r {
                    Some(s) => Some(s@),
                    None => None,
                },
            ),
            (exists|
                dt: Vec<u64>,
                product: Vec<u64>,
                bb_size: u64,
                scale: u64,
                a: Vec<u64>,
                temporal_scale: u64,
            |
                {
                    &&& #[trigger] call_ensures(
                        M::compute_transpose,
                        (delta_matrix, masked_position_count, active_count),
                        dt,
                    )
                    &&& #[trigger] call_ensures(
                        M::compute_dt_d,
                        (&dt, active_count, masked_position_count),
                        product,
                    )
                    &&& #[trigger] call_ensures(
                        M::compute_bounding_box_diagonal,
                        (masked_neutral_flat,),
                        bb_size,
                    )
                    &&& #[trigger] bounding_box_scale_is::<F>(bb_size, template_bb_size, scale)
                    &&& #[trigger] call_ensures(
                        M::apply_regularization,
                        (
                            product,
                            active_count,
                            scale,
                            strength_l2,
                            strength_l1,
                            strength_temporal,
                        ),
                        (a, temporal_scale),
                    )
                    &&& match r {
                        Some(s) => {
                            &&& s@.dt == dt@
                            &&& s@.a == a@
                            &&& s@.temporal_scale == temporal_scale
                            &&& s@.active_count == active_count
                            &&& s@.masked_position_count == masked_position_count
                            &&& s@.prev_weights.len() == active_count
                            &&& forall|i: int|
                                0 <= i < active_count ==> #[trigger] s@.prev_weights[i] == 0
                        },
                        None => dt@.len() != active_count * masked_position_count || a@.len()
                            != active_count * active_count,
                    }
                }),
    {
        let v: usize = masked_position_count;
        let k: usize = active_count;
        let dt: Vec<u64> = M::compute_transpose(delta_matrix, v, k);
        let dtd: Vec<u64> = M::compute_dt_d(&dt, k, v);
        let bb_size: u64 = M::compute_bounding_box_diagonal(masked_neutral_flat);
        let scale: u64 = bounding_box_scale::<F>(bb_size, template_bb_size);
        let ghost product = dtd;
        let (a, temporal_scale) = M::apply_regularization(
            dtd,
            k,
            scale,
            strength_l2,
            strength_l1,
            strength_temporal,
        );
        let ghost made = Setup { dt, product, bb_size, scale, a, temporal_scale };
        assert(made.goes_into::<F, M>(
            delta_matrix,
            v,
            k,
            masked_neutral_flat,
            template_bb_size,
            (strength_l2, strength_l1, strength_temporal),
        ));
        if fills(dt.len(), k, v) && fills(a.len(), k, k) {
            Some(BvlsBlendshapeSolver::from_matrices(dt, a, temporal_scale, v, k))
        } else {
            None
        }
    }

    /// Builds a solver without a temporal pull from its matrices.
    ///
    /// `dt` is the transposed delta matrix, `a` the normal matrix with its
    /// regularisation, both row-major.
    pub fn from_matrices(
        dt: Vec<u64>,
        a: Vec<u64>,
        temporal_scale: u64,
        masked_position_count: usize,
        active_count: usize,
    ) -> (r: Self)
        requires
            dt@.len() == active_count * masked_position_count,
            a@.len() == active_count * active_count,
        ensures
            r.valid(),
            r@ == (BvlsSystem {
                active_count: active_count as nat,
                masked_position_count: masked_position_count as nat,
                dt: dt@,
                a: a@,
                temporal_scale: temporal_scale,
                prev_weights: zeros(active_count as nat),
            }),
            forall|i: int| 0 <= i < active_count ==> #[trigger] r@.prev_weights[i] == 0,
    {
        let prev_weights: Vec<u64> = vec![0u64; active_count];
        assert(prev_weights@ =~= zeros(active_count as nat));
        BvlsBlendshapeSolver {
            active_count,
            masked_position_count,
            dt,
            a,
            temporal_scale,
            prev_weights,
            ops: PhantomData,
        }
    }

    /// Right-hand side `b = D' delta + temporal * prev_weights`.
    fn target(&self, d: &Vec<u64>) -> (b: Vec<u64>)
        requires
            self.valid(),
            d@.len() == self@.masked_position_count,
        ensures
            b@.len() == self@.active_count,
            forall|i: int| 0 <= i < b@.len() ==> self@.target_is::<F>(d@, i, #[trigger] b@[i]),
    {
        let k: usize = self.active_count;
        let v: usize = self.masked_position_count;
        let mut b: Vec<u64> = Vec::new();
        let mut i: usize = 0;
        while i < k
            invariant
                i <= k,
                k == self.active_count,
                v == self.masked_position_count,
                d@.len() == v,
                self@.valid(),
                b@.len() == i,
                forall|p: int| 0 <= p < i ==> self@.target_is::<F>(d@, p, #[trigger] b@[p]),
            decreases k - i,
        {
            let r: &[u64] = row_of(&self.dt, v, k, i);
            let sum: u64 = dot::<F>(r, d.as_slice(), v);
            let t: u64 = mul64::<F>(self.temporal_scale, self.prev_weights[i]);
            let e: u64 = add64::<F>(sum, t);
            assert(self@.target_is::<F>(d@, i as int, e)) by {
                assert(multiplied64::<F>(self@.temporal_scale, self@.prev_weights[i as int], t));
                assert(added64::<F>(sum, t, e));
            }
            b.push(e);
            i = i + 1;
        }
        b
    }
}

fn widened(delta: &[u32]) -> (d: Vec<u64>)
    ensures
        d@.len() == delta@.len(),
        forall|j: int| 0 <= j < delta@.len() ==> widens(#[trigger] delta@[j], d@[j]),
{
    let mut d: Vec<u64> = Vec::new();
    let mut j: usize = 0;
    while j < delta.len()
        invariant
            j <= delta@.len(),
            d@.len() == j,
            forall|p: int| 0 <= p < j ==> widens(#[trigger] delta@[p], d@[p]),
        decreases delta@.len() - j,
    {
        d.push(widen(delta[j]));
        j = j + 1;
    }
    d
}

fn narrowed(x: &Vec<u64>) -> (w: Vec<u32>)
    ensures
        w@.len() == x@.len(),
        forall|i: int| 0 <= i < x@.len() ==> narrows(x@[i], #[trigger] w@[i]),
{
    let mut w: Vec<u32> = Vec::new();
    let mut i: usize = 0;
    while i < x.len()
        invariant
            i <= x@.len(),
            w@.len() == i,
            forall|p: int| 0 <= p < i ==> narrows(x@[p], #[trigger] w@[p]),
        decreases x@.len() - i,
    {
        w.push(narrow(x[i]));
        i = i + 1;
    }
    w
}

impl<F: FloatOps> BlendshapeSolver for BvlsBlendshapeSolver<F> {
    type Ops = F;

    open spec fn valid(&self) -> bool {
        self@.valid()
    }

    open spec fn position_count(&self) -> nat {
        self@.masked_position_count
    }

    open spec fn weight_count(&self) -> nat {
        self@.active_count
    }

    open spec fn temporal(&self) -> Seq<u64> {
        self@.prev_weights
    }

    open spec fn same_system(&self, other: &Self) -> bool {
        self@ == other@.pulled_to(self@.prev_weights)
    }

    open spec fn solves(&self, delta: Seq<u32>, after: &Self, r: Option<Seq<u32>>) -> bool {
        self@.solves::<F>(delta, after@, r)
    }

    fn solve(&mut self, delta: &[u32]) -> (r: Option<Vec<u32>>) {
        let ghost before = self@;
        let d: Vec<u64> = widened(delta);
        let b: Vec<u64> = self.target(&d);
        match minimise::<F>(&self.a, &b, MAX_OUTER_ITERATIONS) {
            Some(x) => {
                assert(before.minimum_through::<F>(delta@, d@, b@, Some(x@)));
                let w: Vec<u32> = narrowed(&x);
                self.prev_weights = x;
                assert(self@ =~= before.pulled_to(x@));
                Some(w)
            },
            None => {
                assert(before.minimum_through::<F>(delta@, d@, b@, None));
                assert(self@ =~= before.pulled_to(before.prev_weights));
                None
            },
        }
    }

    fn reset_temporal(&mut self) {
        let ghost before = self@;
        self.prev_weights = vec![0u64; self.active_count];
        assert(self.prev_weights@ =~= zeros(before.active_count));
    }

    fn save_temporal(&self) -> (r: Vec<u64>) {
        let r: Vec<u64> = self.prev_weights.clone();
        assert(r@ =~= self.prev_weights@);
        r
    }

    fn restore_temporal(&mut self, saved: &[u64]) {
        self.prev_weights = vstd::slice::slice_to_vec(saved);
    }

    fn accepts(&self, count: usize) -> (r: bool) {
        count == self.masked_position_count
    }

    fn active_count(&self) -> (r: usize) {
        self.active_count
    }
}

/// Restoring the pull that was saved before a frame brings the system back.
pub proof fn law_restore_undoes_solving<F: FloatOps>(
    s: BvlsSystem,
    delta: Seq<u32>,
    after: BvlsSystem,
    r: Option<Seq<u32>>,
)
    requires
        s.solves::<F>(delta, after, r),
    ensures
        after.pulled_to(s.prev_weights) == s,
{
}

/// After a reset nothing is left of the frames before.
pub proof fn law_reset_forgets_frames<F: FloatOps>(
    s: BvlsSystem,
    delta: Seq<u32>,
    after: BvlsSystem,
    r: Option<Seq<u32>>,
)
    requires
        s.solves::<F>(delta, after, r),
    ensures
        after.pulled_to(zeros(s.active_count)) == s.pulled_to(zeros(s.active_count)),
{
}

} // verus!
