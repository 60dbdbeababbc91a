//! The streaming lip-sync node.

pub mod buffer;
pub mod call;
pub mod call_laws;
pub mod config;
pub mod factory;
pub mod keyframe_laws;
pub mod node;
pub mod pacing;
pub mod repeat_laws;
pub mod run_laws;
pub mod session_laws;
pub mod skin;
pub mod skin_laws;
pub mod window;
