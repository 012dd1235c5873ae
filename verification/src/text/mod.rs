//! Text rendering support: the glyph atlases that rasterized glyphs are
//! packed into, and the span structures of text entities.

pub mod atlas;
pub mod structure;
