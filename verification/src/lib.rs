//! Verified core of a 2D rendering toolkit: localization formats, a chunked
//! append buffer, texture atlases, text structures and glyph atlases, render
//! batching, and the crate lookups and plugin lists of its macros.

pub mod atlas;
pub mod bits;
pub mod chars;
pub mod decimal;
pub mod gui;
pub mod locale;
pub mod manifest;
pub mod plugins;
pub mod rect;
pub mod render;
pub mod text;
pub mod vec_belt;

