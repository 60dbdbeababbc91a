//! Configuration of the lip-sync node.

use vstd::prelude::*;

use crate::audio2face::identity::Audio2FaceIdentity;

verus! {

/// Which solver turns vertex deltas into weights.
#[derive(Debug, Clone, Copy, PartialEq, Eq, Structural)]
pub enum SolverChoice {
    /// Projected gradient descent.
    Pgd,
    /// Bounded-variable least squares.
    Bvls,
}

impl Default for SolverChoice {
    fn default() -> (r: Self)
        ensures
            r == SolverChoice::Pgd,
    {
        SolverChoice::Pgd
    }
}

/// Configuration of the lip-sync node.
#[derive(Debug)]
pub struct Audio2FaceLipSyncConfig {
    /// Directory of the unpacked bundle.
    pub bundle_path: String,
    /// Identity to animate.
    pub identity: Audio2FaceIdentity,
    /// Solver to use.
    pub solver: SolverChoice,
    /// Whether to run the network on a GPU where there is one.
    pub use_gpu: bool,
    /// Share of the last frame in the next one, a binary32 bit pattern. Zero
    /// does not smooth.
    pub smoothing_alpha: u32,
    /// Whether to hold keyframes back until their time has come.
    pub pace_realtime: bool,
}

/// Keyframes are paced unless the configuration says otherwise.
pub fn default_pace_realtime() -> (r: bool)
    ensures
        r,
{
    true
}

impl Default for Audio2FaceLipSyncConfig {
    fn default() -> (r: Self)
        ensures
            r.bundle_path@ == ""@,
            r.identity == Audio2FaceIdentity::Claire,
            r.solver == SolverChoice::Pgd,
            !r.use_gpu,
            r.smoothing_alpha == 0,
            r.pace_realtime,
    {
        Audio2FaceLipSyncConfig {
            bundle_path: "".to_owned(),
            identity: Audio2FaceIdentity::Claire,
            solver: SolverChoice::Pgd,
            use_gpu: false,
            smoothing_alpha: 0,
            pace_realtime: default_pace_realtime(),
        }
    }
}

} // verus!
