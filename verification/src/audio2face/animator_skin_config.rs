//! How the animator blends the skin.

use vstd::prelude::*;

verus! {

/// Skin parameters of the animator, as binary32 bit patterns.
#[derive(Debug, Clone, Copy)]
pub struct AnimatorSkinConfig {
    /// Factor on the skin deltas that the network predicts.
    pub skin_strength: u32,
    /// How far the eyelids are opened against the closed-eye pose.
    pub eyelid_open_offset: u32,
    /// How far the lips are opened along the open-lip pose.
    pub lip_open_offset: u32,
}

} // verus!
