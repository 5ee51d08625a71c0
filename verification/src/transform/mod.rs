//! Transforms of a register map.
pub mod common;
pub mod kept_laws;
pub mod legacy_sanitize;
pub mod level_laws;
pub mod names;
pub mod names_laws;
pub mod sanitize;
pub mod sanitize_laws;
