//! Register maps of chips: sanitizing their names, checking that parts of them are
//! compatible, and generating code from them.
pub mod commands;
pub mod ir;
pub mod ir_laws;
pub mod name_map;
pub mod name_map_laws;
pub mod patterns;
pub mod seqs;
pub mod text;
pub mod text_laws;
pub mod transform;
