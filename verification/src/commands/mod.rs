//! The tool's commands.
pub mod check_compat;
pub mod check_laws;
pub mod compat;
pub mod compat_error;
pub mod compat_laws;
pub mod difference_laws;
pub mod ending_laws;
pub mod generate;
pub mod generate_laws;
pub mod mux;
pub mod mux_laws;
pub mod nesting;
pub mod pad_laws;
pub mod report_laws;
pub mod shown_laws;
pub mod swap_laws;
pub mod word_laws;
