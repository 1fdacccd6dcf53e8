//! A fixed-point unit-quaternion value type for representing 3D rotations.
//!
//! Components are held as integers scaled by one billion, so that the
//! normalization discipline — divide by the Euclidean norm, or fall back to
//! the identity when the norm is nearly zero — is exact integer arithmetic
//! that the verifier can reason about.

pub mod math;
pub mod unit_quaternion;
