//! Texture atlases: page assembly (sprites are ordered by size, packed into
//! pages, copied into the page pixels with padding and edge bleeding, and
//! nine-slice sprites have their cuts read from their guide pixels), sprite
//! lookups and their caches, and the entries structs declare.

pub mod blit;
pub mod cache;
pub mod entries;
pub mod file;
pub mod loader;
pub mod packer;
pub mod nine;
pub mod order;
