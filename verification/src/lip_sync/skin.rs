//! From one predicted skin frame to ARKit weights.

use vstd::prelude::*;

use crate::arkit::{ArkitSmoother, Smoothing, ARKIT_52};
use crate::audio2face::animator_skin_config::AnimatorSkinConfig;
use crate::audio2face::blendshape_data::{BlendshapeConfig, BlendshapeData};
use crate::audio2face::solver_trait::BlendshapeSolver;
use crate::float_bits::{neg32, negated32};
use crate::float_ops::{add32, added32, mul32, multiplied32, sub32, subtracted32, FloatOps};

verus! {

/// Whether `r` is what one vertex component contributes to the delta:
///
/// ```text
/// composed = strength * skin + eye * (-eyelid) + lip * lip_offset
/// r        = model + composed - neutral
/// ```
pub open spec fn component_is<F: FloatOps>(
    config: AnimatorSkinConfig,
    skin: u32,
    eye: u32,
    lip: u32,
    model: u32,
    neutral: u32,
    r: u32,
) -> bool {
    exists|s: u32, e: u32, se: u32, l: u32, composed: u32, moved: u32|
        {
            &&& #[trigger] multiplied32::<F>(config.skin_strength, skin, s)
            &&& #[trigger] multiplied32::<F>(eye, negated32(config.eyelid_open_offset), e)
            &&& #[trigger] added32::<F>(s, e, se)
            &&& #[trigger] multiplied32::<F>(lip, config.lip_open_offset, l)
            &&& #[trigger] added32::<F>(se, l, composed)
            &&& #[trigger] added32::<F>(model, composed, moved)
            &&& subtracted32::<F>(moved, neutral, r)
        }
}

fn component<F: FloatOps>(
    config: &AnimatorSkinConfig,
    skin: u32,
    eye: u32,
    lip: u32,
    model: u32,
    neutral: u32,
) -> (r: u32)
    ensures
        component_is::<F>(*config, skin, eye, lip, model, neutral, r),
{
    let s: u32 = mul32::<F>(config.skin_strength, skin);
    let e: u32 = mul32::<F>(eye, neg32(config.eyelid_open_offset));
    let se: u32 = add32::<F>(s, e);
    let l: u32 = mul32::<F>(lip, config.lip_open_offset);
    let composed: u32 = add32::<F>(se, l);
    let moved: u32 = add32::<F>(model, composed);
    let r: u32 = sub32::<F>(moved, neutral);
    assert(multiplied32::<F>(config.skin_strength, skin, s));
    assert(multiplied32::<F>(eye, negated32(config.eyelid_open_offset), e));
    assert(added32::<F>(s, e, se));
    assert(multiplied32::<F>(lip, config.lip_open_offset, l));
    assert(added32::<F>(se, l, composed));
    assert(added32::<F>(model, composed, moved));
    r
}

/// Whether masked vertex `m` stands in the mesh: its mask entry is no negative
/// number, and all its components are there in the skin frame of `skin_len`
/// components and in the data.
pub open spec fn in_mesh(data: BlendshapeData, skin_len: nat, m: int) -> bool {
    let last = data.frontal_mask@[m] * 3 + 2;
    &&& data.frontal_mask@[m] >= 0
    &&& last < skin_len
    &&& last < data.neutral_skin_flat@.len()
    &&& last < data.eye_close_pose_delta_flat@.len()
    &&& last < data.lip_open_pose_delta_flat@.len()
    &&& m * 3 + 2 < data.neutral_flat@.len()
}

/// Whether every masked vertex that stands in the mesh has its place in the
/// delta.
pub open spec fn mask_fits(data: BlendshapeData, skin_len: nat) -> bool {
    forall|m: int|
        0 <= m < data.frontal_mask@.len() && #[trigger] in_mesh(data, skin_len, m) ==> m * 3 + 2
            < data.masked_position_count
}

/// Whether entry `p` of the delta is `r`: what its vertex component
/// contributes, or zero where there is no such vertex in the mesh.
pub open spec fn delta_entry_is<F: FloatOps>(
    config: AnimatorSkinConfig,
    data: BlendshapeData,
    skin: Seq<u32>,
    p: int,
    r: u32,
) -> bool {
    let v = data.frontal_mask@[p / 3] * 3 + p % 3;
    if p / 3 < data.frontal_mask@.len() && in_mesh(data, skin.len(), p / 3) {
        component_is::<F>(
            config,
            skin[v],
            data.eye_close_pose_delta_flat@[v],
            data.lip_open_pose_delta_flat@[v],
            data.neutral_skin_flat@[v],
            data.neutral_flat@[p],
            r,
        )
    } else {
        r == 0
    }
}

/// Whether `delta` is how far `skin` displaces the masked vertices.
pub open spec fn delta_is<F: FloatOps>(
    config: AnimatorSkinConfig,
    data: BlendshapeData,
    skin: Seq<u32>,
    delta: Seq<u32>,
) -> bool {
    delta.len() == data.masked_position_count && forall|p: int|
        0 <= p < delta.len() ==> delta_entry_is::<F>(config, data, skin, p, #[trigger] delta[p])
}

fn stands_in_mesh(data: &BlendshapeData, skin_len: usize, m: usize) -> (r: bool)
    requires
        m < data.frontal_mask@.len(),
    ensures
        r == in_mesh(*data, skin_len as nat, m as int),
{
    if data.frontal_mask[m] < 0 {
        return false;
    }
    let last: u64 = data.frontal_mask[m] as u64 * 3 + 2;
    last < skin_len as u64 && last < data.neutral_skin_flat.len() as u64 && last
        < data.eye_close_pose_delta_flat.len() as u64 && last
        < data.lip_open_pose_delta_flat.len() as u64 && (m as u128) * 3 + 2
        < data.neutral_flat.len() as u128
}

/// How far `skin` displaces the masked vertices.
pub fn masked_delta<F: FloatOps>(
    config: &AnimatorSkinConfig,
    data: &BlendshapeData,
    skin: &[u32],
) -> (delta: Vec<u32>)
    requires
        mask_fits(*data, skin@.len()),
    ensures
        delta_is::<F>(*config, *data, skin@, delta@),
{
    let n: usize = data.masked_position_count;
    let mut delta: Vec<u32> = Vec::new();
    let mut p: usize = 0;
    while p < n
        invariant
            p <= n,
            n == data.masked_position_count,
            delta@.len() == p,
            forall|q: int|
                0 <= q < p ==> delta_entry_is::<F>(*config, *data, skin@, q, #[trigger] delta@[q]),
        decreases n - p,
    {
        let m: usize = p / 3;
        let c: usize = p % 3;
        let r: u32;
        if m < data.frontal_mask.len() && stands_in_mesh(data, skin.len(), m) {
            let v: usize = data.frontal_mask[m] as usize * 3 + c;
            r = component::<F>(
                config,
                skin[v],
                data.eye_close_pose_delta_flat[v],
                data.lip_open_pose_delta_flat[v],
                data.neutral_skin_flat[v],
                data.neutral_flat[p],
            );
        } else {
            r = 0;
        }
        delta.push(r);
        p = p + 1;
    }
    delta
}

/// Whether every masked vertex that stands in the mesh has its place in the
/// delta.
pub fn check_mask(data: &BlendshapeData, skin_len: usize) -> (r: bool)
    ensures
        r == mask_fits(*data, skin_len as nat),
{
    let mut m: usize = 0;
    while m < data.frontal_mask.len()
        invariant
            m <= data.frontal_mask@.len(),
            forall|k: int|
                0 <= k < m && #[trigger] in_mesh(*data, skin_len as nat, k) ==> k * 3 + 2
                    < data.masked_position_count,
        decreases data.frontal_mask@.len() - m,
    {
        if stands_in_mesh(data, skin_len, m) && m as u128 * 3 + 2
            >= data.masked_position_count as u128 {
            assert(in_mesh(*data, skin_len as nat, m as int));
            return false;
        }
        m = m + 1;
    }
    true
}

/// The first `n` solver weights at the ARKit blendshapes that they belong to;
/// a later weight takes the place of an earlier one, and the others are zero.
pub open spec fn spread(indices: Seq<usize>, weights: Seq<u32>, n: int) -> Seq<u32>
    decreases n,
{
    if n <= 0 {
        Seq::new(ARKIT_52 as nat, |i: int| 0u32)
    } else if indices[n - 1] < ARKIT_52 {
        spread(indices, weights, n - 1).update(indices[n - 1] as int, weights[n - 1])
    } else {
        spread(indices, weights, n - 1)
    }
}

/// Whether the configuration covers `weight_count` solver weights: there is a
/// weight for every ARKit blendshape that it names, and a factor and an offset
/// for each ARKit blendshape.
pub open spec fn config_fits(config: BlendshapeConfig, weight_count: nat) -> bool {
    &&& forall|k: int|
        0 <= k < config.active_indices@.len() && (#[trigger] config.active_indices@[k])
            < ARKIT_52 ==> k < weight_count
    &&& config.multipliers@.len() >= ARKIT_52
    &&& config.offsets@.len() >= ARKIT_52
}

/// Whether the configuration covers `weight_count` solver weights.
pub fn check_config(config: &BlendshapeConfig, weight_count: usize) -> (r: bool)
    ensures
        r == config_fits(*config, weight_count as nat),
{
    let mut k: usize = 0;
    while k < config.active_indices.len()
        invariant
            k <= config.active_indices@.len(),
            forall|j: int|
                0 <= j < k && (#[trigger] config.active_indices@[j]) < ARKIT_52 ==> j
                    < weight_count,
        decreases config.active_indices@.len() - k,
    {
        if config.active_indices[k] < ARKIT_52 && k >= weight_count {
            return false;
        }
        k = k + 1;
    }
    config.multipliers.len() >= ARKIT_52 && config.offsets.len() >= ARKIT_52
}

/// Whether `r` is `x * factor + offset`.
pub open spec fn adjusted_is<F: FloatOps>(x: u32, factor: u32, offset: u32, r: u32) -> bool {
    exists|p: u32| #[trigger] multiplied32::<F>(x, factor, p) && added32::<F>(p, offset, r)
}

/// Whether `raw` are the ARKit values that the solver weights give, before
/// smoothing.
pub open spec fn expanded_is<F: FloatOps>(
    config: BlendshapeConfig,
    weights: Seq<u32>,
    raw: Seq<u32>,
) -> bool {
    let spread = spread(config.active_indices@, weights, config.active_indices@.len() as int);
    raw.len() == ARKIT_52 && forall|i: int|
        0 <= i < ARKIT_52 ==> adjusted_is::<F>(
            spread[i],
            config.multipliers@[i],
            config.offsets@[i],
            #[trigger] raw[i],
        )
}

/// The ARKit values that the solver weights give, before smoothing.
pub fn expand<F: FloatOps>(config: &BlendshapeConfig, weights: &Vec<u32>) -> (raw: [u32; ARKIT_52])
    requires
        config_fits(*config, weights@.len()),
    ensures
        expanded_is::<F>(*config, weights@, raw@),
{
    let ghost indices = config.active_indices@;
    let mut raw: [u32; ARKIT_52] = [0; ARKIT_52];
    let mut k: usize = 0;
    assert(raw@ =~= spread(indices, weights@, 0));
    while k < config.active_indices.len()
        invariant
            k <= config.active_indices@.len(),
            indices == config.active_indices@,
            config_fits(*config, weights@.len()),
            raw@ == spread(indices, weights@, k as int),
        decreases config.active_indices@.len() - k,
    {
        let pose: usize = config.active_indices[k];
        if pose < ARKIT_52 {
            assert(indices[k as int] < ARKIT_52);
            raw[pose] = weights[k];
        }
        k = k + 1;
    }
    let ghost spread = raw@;
    let mut i: usize = 0;
    while i < ARKIT_52
        invariant
            i <= ARKIT_52,
            spread.len() == ARKIT_52,
            config_fits(*config, weights@.len()),
            forall|j: int| i <= j < ARKIT_52 ==> raw@[j] == spread[j],
            forall|j: int|
                0 <= j < i ==> adjusted_is::<F>(
                    spread[j],
                    config.multipliers@[j],
                    config.offsets@[j],
                    #[trigger] raw@[j],
                ),
        decreases ARKIT_52 - i,
    {
        let p: u32 = mul32::<F>(raw[i], config.multipliers[i]);
        let r: u32 = add32::<F>(p, config.offsets[i]);
        assert(adjusted_is::<F>(
            spread[i as int],
            config.multipliers@[i as int],
            config.offsets@[i as int],
            r,
        ));
        raw[i] = r;
        i = i + 1;
    }
    raw
}

/// What does not change from frame to frame.
pub ghost struct Rig {
    pub bs_config: BlendshapeConfig,
    pub animator_config: AnimatorSkinConfig,
    pub data: BlendshapeData,
}

/// What one frame hands on to the next.
pub ghost struct Motion<S: BlendshapeSolver> {
    pub solver: S,
    pub smoothing: Smoothing,
}

impl<S: BlendshapeSolver> Motion<S> {
    /// Whether the solver answers `delta` with `weights`, which give `raw`
    /// before smoothing and `out` after it, and leaves `after` behind.
    pub open spec fn answers(
        self,
        rig: Rig,
        delta: Seq<u32>,
        weights: Seq<u32>,
        raw: Seq<u32>,
        after: Motion<S>,
        out: Seq<u32>,
    ) -> bool {
        &&& self.solver.solves(delta, &after.solver, Some(weights))
        &&& expanded_is::<S::Ops>(rig.bs_config, weights, raw)
        &&& self.smoothing.smooths::<S::Ops>(raw, out)
        &&& after.smoothing == self.smoothing.after(out)
    }

    /// Whether `delta` becomes the ARKit values `out` and leaves `after`
    /// behind.
    pub open spec fn answered(
        self,
        rig: Rig,
        delta: Seq<u32>,
        after: Motion<S>,
        out: Seq<u32>,
    ) -> bool {
        exists|weights: Seq<u32>, raw: Seq<u32>| #[trigger]
            self.answers(rig, delta, weights, raw, after, out)
    }

    /// Whether the frame `skin`, which displaces the masked vertices by
    /// `delta`, becomes the ARKit values `out` and leaves `after` behind.
    pub open spec fn converts_through(
        self,
        rig: Rig,
        skin: Seq<u32>,
        delta: Seq<u32>,
        after: Motion<S>,
        out: Option<Seq<u32>>,
    ) -> bool {
        &&& delta_is::<S::Ops>(rig.animator_config, rig.data, skin, delta)
        &&& match out {
            Some(o) => config_fits(rig.bs_config, self.solver.weight_count()) && self.answered(
                rig,
                delta,
                after,
                o,
            ),
            None => self.balks(rig, delta, after),
        }
    }

    /// Whether `delta` becomes nothing and leaves `after` behind: the solver
    /// gets stuck, or the configuration does not cover its weights.
    pub open spec fn balks(self, rig: Rig, delta: Seq<u32>, after: Motion<S>) -> bool {
        &&& after.smoothing == self.smoothing
        &&& self.solver.solves(delta, &after.solver, None) || (!config_fits(
            rig.bs_config,
            self.solver.weight_count(),
        ) && exists|weights: Seq<u32>| #[trigger]
            self.solver.solves(delta, &after.solver, Some(weights)))
    }

    /// Whether the frame `skin` becomes the ARKit values `out` and leaves
    /// `after` behind. `out` is None where the mask does not fit the data, which
    /// leaves everything as it is, where the solver gets stuck, and where the
    /// configuration does not cover the solver's weights.
    pub open spec fn converts(
        self,
        rig: Rig,
        skin: Seq<u32>,
        after: Motion<S>,
        out: Option<Seq<u32>>,
    ) -> bool {
        if mask_fits(rig.data, skin.len()) {
            exists|delta: Seq<u32>| #[trigger] self.converts_through(rig, skin, delta, after, out)
        } else {
            after == self && out is None
        }
    }
}

/// Converts one skin frame to ARKit values: displaces the masked vertices,
/// solves for the weights, spreads and adjusts them, and smooths the result.
/// None where the solver gets stuck, and where the mask or the configuration
/// does not fit.
pub fn skin_frame_to_arkit<S: BlendshapeSolver>(
    skin_frame: &[u32],
    solver: &mut S,
    smoother: &mut ArkitSmoother,
    bs_config: &BlendshapeConfig,
    animator_config: &AnimatorSkinConfig,
    data: &BlendshapeData,
) -> (r: Option<[u32; ARKIT_52]>)
    requires
        old(solver).valid(),
        data.masked_position_count == old(solver).position_count(),
    ensures
        final(solver).valid(),
        final(solver).position_count() == old(solver).position_count(),
        final(solver).weight_count() == old(solver).weight_count(),
        *final(solver) == *old(solver) || final(solver).same_system(old(solver)),
        final(smoother)@.alpha == old(smoother)@.alpha,
        (Motion { solver: *old(solver), smoothing: old(smoother)@ }).converts(
            (Rig { bs_config: *bs_config, animator_config: *animator_config, data: *data }),
            skin_frame@,
            (Motion { solver: *final(solver), smoothing: final(smoother)@ }),
            match r {
                Some(a) => Some(a@),
                None => None,
            },
        ),
{
    let ghost before = Motion { solver: *solver, smoothing: smoother@ };
    let ghost rig = Rig {
        bs_config: *bs_config,
        animator_config: *animator_config,
        data: *data,
    };
    if !check_mask(data, skin_frame.len()) {
        return None;
    }
    let delta: Vec<u32> = masked_delta::<S::Ops>(animator_config, data, skin_frame);
    let covered: bool = check_config(bs_config, solver.active_count());
    match solver.solve(delta.as_slice()) {
        None => {
            assert(before.converts_through(
                rig,
                skin_frame@,
                delta@,
                Motion { solver: *solver, smoothing: smoother@ },
                None,
            ));
            None
        },
        Some(weights) => {
            if !covered {
                let ghost after = Motion { solver: *solver, smoothing: smoother@ };
                assert(before.solver.solves(delta@, &after.solver, Some(weights@)));
                assert(before.balks(rig, delta@, after));
                assert(before.converts_through(rig, skin_frame@, delta@, after, None));
                return None;
            }
            let raw: [u32; ARKIT_52] = expand::<S::Ops>(bs_config, &weights);
            let out: [u32; ARKIT_52] = smoother.smooth::<S::Ops>(&raw);
            let ghost after = Motion { solver: *solver, smoothing: smoother@ };
            assert(before.answers(rig, delta@, weights@, raw@, after, out@));
            assert(before.answered(rig, delta@, after, out@));
            assert(before.converts_through(rig, skin_frame@, delta@, after, Some(out@)));
            Some(out)
        },
    }
}

} // verus!
