//! Making nodes: the names and the error texts of it.

use vstd::prelude::*;

use crate::error::Error;
use crate::text::joined;

verus! {

/// The parts of a bundle that are loaded for a node.
#[derive(Debug, Clone, Copy, PartialEq, Eq, Structural)]
pub enum BundlePart {
    BlendshapeConfig,
    AnimatorSkinConfig,
    BlendshapeData,
}

impl BundlePart {
    /// What the part is called.
    pub open spec fn label(self) -> Seq<char> {
        match self {
            BundlePart::BlendshapeConfig => "blendshape config: "@,
            BundlePart::AnimatorSkinConfig => "animator skin config: "@,
            BundlePart::BlendshapeData => "blendshape data: "@,
        }
    }
}

/// The error for a part of the bundle that does not load.
pub fn load_error(part: BundlePart, detail: &str) -> (r: Error)
    ensures
        r matches Error::Execution(text) && text@ == part.label() + detail@,
        part is BlendshapeConfig ==> (r matches Error::Execution(text) && text@
            == "blendshape config: "@ + detail@),
        part is AnimatorSkinConfig ==> (r matches Error::Execution(text) && text@
            == "animator skin config: "@ + detail@),
        part is BlendshapeData ==> (r matches Error::Execution(text) && text@
            == "blendshape data: "@ + detail@),
{
    let label = match part {
        BundlePart::BlendshapeConfig => "blendshape config: ",
        BundlePart::AnimatorSkinConfig => "animator skin config: ",
        BundlePart::BlendshapeData => "blendshape data: ",
    };
    Error::Execution(joined(label, detail))
}

/// The error for an inference task that did not come back.
pub fn task_error(detail: &str) -> (r: Error)
    ensures
        r matches Error::Execution(text) && text@
            == "Audio2FaceLipSyncNode inference task panicked: "@ + detail@,
{
    Error::Execution(joined("Audio2FaceLipSyncNode inference task panicked: ", detail))
}

/// Makes nodes from their parameters.
#[derive(Debug, Clone, Copy)]
pub struct Audio2FaceLipSyncNodeFactory;

impl Default for Audio2FaceLipSyncNodeFactory {
    fn default() -> (r: Self) {
        Audio2FaceLipSyncNodeFactory
    }
}

impl Audio2FaceLipSyncNodeFactory {
    /// The name that the nodes are registered under.
    pub fn node_type(&self) -> (r: &'static str)
        ensures
            r@ == "Audio2FaceLipSyncNode"@,
    {
        "Audio2FaceLipSyncNode"
    }

    /// What is answered to parameters that cannot be read.
    pub fn params_error(&self, detail: &str) -> (r: String)
        ensures
            r@ == "Audio2FaceLipSyncNode params parse failed: "@ + detail@,
    {
        joined("Audio2FaceLipSyncNode params parse failed: ", detail)
    }

    /// What is answered where the node cannot be loaded.
    pub fn load_failure(&self, detail: &str) -> (r: String)
        ensures
            r@ == "Audio2FaceLipSyncNode load failed: "@ + detail@,
    {
        joined("Audio2FaceLipSyncNode load failed: ", detail)
    }
}

} // verus!
