//! Palette extraction, gradient templating and color matching, with the
//! parsing, rendering and palette logic verified.

pub mod text;
pub mod utils;
pub mod fade;
pub mod pick;
