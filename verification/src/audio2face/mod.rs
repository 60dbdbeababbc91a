//! Audio2Face bundle layout, data readers and solver.

pub mod active_set;
pub mod animator_skin_config;
pub mod blendshape_data;
pub mod bvls_solver;
pub mod cholesky;
pub mod cholesky_laws;
pub mod curve_laws;
pub mod identity;
pub mod npy;
pub mod npy_laws;
pub mod npz;
pub mod optimum_laws;
pub mod response_curves;
pub mod setup_laws;
pub mod sign_laws;
pub mod solver_laws;
pub mod solver_math;
pub mod solver_trait;
