//! Font glyph ranges for Dear ImGui, and the text processing that tidies the
//! generated low-level bindings (allowlists, derive patching, impl blocks).
pub mod glyph_ranges;
pub mod text;
pub mod bindings;
