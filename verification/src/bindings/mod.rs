//! The text processing behind the generated low-level bindings: allowlists from
//! the cimgui metadata, and the rewrite of derives into hand-written impls.
pub mod fields;
pub mod derives;
pub mod impl_block;
pub mod patch;
pub mod float_literal;
pub mod json;
pub mod allowlist;
