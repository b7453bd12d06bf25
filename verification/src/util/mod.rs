//! Helpers shared by several preconditioners.
pub mod diag_split;
pub mod gershgorin;
pub mod patterns;
pub mod powers;
pub mod rayleigh;
pub mod select;
pub mod spd_bounds;
pub mod text;
pub mod unit;
pub mod walks;
