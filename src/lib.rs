//! Renders highlighted source text as an HTML fragment.

pub mod color;
pub mod escape;
pub mod markup;
pub mod render;
pub mod strings;
