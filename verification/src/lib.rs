//! Diagnosis and repair of failed environment solves.
pub mod patterns;
pub mod solve;
pub mod solve_check;
pub mod solver;
pub mod text;
pub mod versions;
