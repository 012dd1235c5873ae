//! The atlas file: padding, bleeding, page usages and the sprite entries,
//! and how an entry's file name marks a nine-slice sprite.

use vstd::prelude::*;

use crate::chars::{str_chars, string_push};

verus! {

/// Where the pages of an atlas are kept: in the main world, the render
/// world, or both.
#[derive(Clone, Copy, Debug, PartialEq, Eq, Structural)]
pub struct AssetUsages {
    /// Kept in the main world.
    pub main: bool,
    /// Kept in the render world.
    pub render: bool,
}

/// An entry of an atlas file: a sprite file, or a directory of entries, each
/// relative to the file or directory around it.
#[derive(Debug)]
pub enum TextureAtlasEntry {
    /// A sprite file.
    File(String),
    /// A directory and the entries inside it.
    Directory(String, Vec<TextureAtlasEntry>),
}

/// An atlas file.
#[derive(Debug)]
pub struct AtlasFile {
    /// Room, in pixels, around each sprite and along the page edges.
    pub padding: u32,
    /// How many pixels of that room repeat the sprite's edge pixels.
    pub bleeding: u32,
    /// Where the pages are kept.
    pub usages: AssetUsages,
    /// The sprite entries.
    pub entries: Vec<TextureAtlasEntry>,
}

impl AtlasFile {
    /// The padding used where a file gives none: 4 pixels.
    pub fn default_padding() -> (r: u32)
        ensures
            r == 4,
    {
        4
    }

    /// The bleeding used where a file gives none: 4 pixels.
    pub fn default_bleeding() -> (r: u32)
        ensures
            r == 4,
    {
        4
    }

    /// The usages used where a file gives none: the render world only.
    pub fn default_usages() -> (r: AssetUsages)
        ensures
            r == (AssetUsages { main: false, render: true }),
    {
        AssetUsages { main: false, render: true }
    }
}

/// A file stem marks a nine-slice sprite when it ends in `.9`; the sprite's
/// name is the stem without it.
pub open spec fn nine_slice_stem(stem: Seq<char>) -> (Seq<char>, bool) {
    if stem.len() >= 2 && stem[stem.len() - 2] == '.' && stem[stem.len() - 1] == '9' {
        (stem.subrange(0, stem.len() - 2), true)
    } else {
        (stem, false)
    }
}

/// The sprite name of a file stem, and whether the stem marks a nine-slice
/// sprite by ending in `.9`.
pub fn split_nine_slice(stem: &str) -> (r: (String, bool))
    ensures
        r.0@ == nine_slice_stem(stem@).0,
        r.1 == nine_slice_stem(stem@).1,
{
    let chars = str_chars(stem);
    let n = chars.len();
    let guided = n >= 2 && chars[n - 2] == '.' && chars[n - 1] == '9';
    let keep = if guided {
        n - 2
    } else {
        n
    };
    let mut name = String::new();
    let mut i: usize = 0;
    while i < keep
        invariant
            i <= keep <= n,
            n == chars@.len(),
            chars@ == stem@,
            name@ == chars@.subrange(0, i as int),
        decreases keep - i,
    {
        string_push(&mut name, chars[i]);
        proof {
            assert(chars@.subrange(0, i + 1) =~= chars@.subrange(0, i as int).push(chars@[i as int]));
        }
        i = i + 1;
    }
    proof {
        assert(chars@.subrange(0, n as int) =~= chars@);
    }
    (name, guided)
}

} // verus!
