//! Glyph atlases: one growing RGBA image per font size and antialiasing mode,
//! into which rasterized glyphs are packed once and then looked up.

use bevy_platform::collections::HashMap;
use guillotiere::AtlasAllocator;
use vstd::prelude::*;

use crate::atlas::blit::pixel_offset;
use crate::atlas::packer::{
    packer_allocate, packer_allocations, packer_extent, packer_fits, packer_grow, packer_new, packer_size,
    packer_sound, rect_inside, rect_int, rects_disjoint,
};
use crate::rect::URect;

verus! {

/// Identifies a rasterized glyph: font, glyph, size bits, horizontal and
/// vertical subpixel bins, and flags.
pub type GlyphKey = (u64, u16, u32, u8, u8, u32);

/// What each glyph of an atlas is stored under: its index among the nodes.
pub uninterp spec fn glyph_slots(m: HashMap<GlyphKey, usize>) -> Map<GlyphKey, usize>;

/// `HashMap::new`: an empty map.
#[verifier::external_body]
fn glyph_map_new() -> (r: HashMap<GlyphKey, usize>)
    ensures
        glyph_slots(r) =~= Map::empty(),
{
    HashMap::new()
}

/// `HashMap::get`: the index stored under `k`, if any.
#[verifier::external_body]
fn glyph_map_get(m: &HashMap<GlyphKey, usize>, k: &GlyphKey) -> (r: Option<usize>)
    ensures
        r == (if glyph_slots(*m).contains_key(*k) {
            Some(glyph_slots(*m)[*k])
        } else {
            None
        }),
{
    m.get(k).copied()
}

/// `HashMap::insert`: stores `v` under `k`, returning what was stored there.
#[verifier::external_body]
fn glyph_map_insert(m: &mut HashMap<GlyphKey, usize>, k: GlyphKey, v: usize) -> (r: Option<usize>)
    ensures
        glyph_slots(*final(m)) == glyph_slots(*old(m)).insert(k, v),
        r == (if glyph_slots(*old(m)).contains_key(k) {
            Some(glyph_slots(*old(m))[k])
        } else {
            None
        }),
{
    m.insert(k, v)
}

/// Which atlas a glyph goes to: its font size bits and whether it is drawn
/// antialiased.
#[derive(Clone, Copy, Debug, PartialEq, Eq, Structural, Hash)]
pub struct FontAtlasKey {
    /// The bits of the font size.
    pub font_size: u32,
    /// Whether glyph edges keep their partial coverage.
    pub antialias: bool,
}

/// How a rasterized glyph stores its pixels.
#[derive(Clone, Copy, Debug, PartialEq, Eq, Structural)]
pub enum GlyphContent {
    /// One coverage byte a pixel, drawn in white.
    Mask,
    /// Four RGBA bytes a pixel.
    Color,
}

/// A rasterized glyph.
#[derive(Debug)]
pub struct GlyphRaster {
    /// Horizontal offset of the image from the pen position.
    pub left: i32,
    /// Vertical offset of the image from the baseline.
    pub top: i32,
    /// Width in pixels.
    pub width: u32,
    /// Height in pixels.
    pub height: u32,
    /// How the pixels are stored.
    pub content: GlyphContent,
    /// The pixels, row after row.
    pub data: Vec<u8>,
}

impl GlyphRaster {
    /// Bytes a pixel of the raster takes.
    pub open spec fn stride(&self) -> int {
        match self.content {
            GlyphContent::Mask => 1,
            GlyphContent::Color => 4,
        }
    }

    /// The buffer holds exactly the image.
    pub open spec fn wf(&self) -> bool {
        self.data@.len() == self.width * self.height * self.stride()
    }
}

/// Where a glyph is drawn from: its offset and its rectangle in the atlas.
#[derive(Clone, Copy, Debug, PartialEq, Eq, Structural)]
pub struct GlyphNode {
    /// Horizontal offset from the pen position.
    pub left: i32,
    /// Vertical offset from the baseline.
    pub top: i32,
    /// Where the glyph's pixels lie in the atlas image.
    pub rect: URect,
}

/// Why a glyph could not be placed in an atlas.
#[derive(Clone, Copy, Debug, PartialEq, Eq)]
pub enum FontLayoutError {
    /// The glyph could not be rasterized.
    NoGlyphImage(GlyphKey),
    /// The atlas image reached its largest size without room for the glyph.
    AtlasFull(GlyphKey),
}

/// Alpha of a glyph pixel: as given when antialiased, else fully opaque above
/// 127 and fully transparent otherwise.
pub open spec fn glyph_alpha(a: u8, antialias: bool) -> u8 {
    if antialias {
        a
    } else if a > 127 {
        255
    } else {
        0
    }
}

/// Byte `c` of the atlas pixel showing pixel `(x, y)` of a glyph.
pub open spec fn glyph_byte(g: GlyphRaster, antialias: bool, x: int, y: int, c: int) -> u8 {
    match g.content {
        GlyphContent::Mask => if c < 3 {
            255
        } else {
            glyph_alpha(g.data@[y * g.width + x], antialias)
        },
        GlyphContent::Color => if c < 3 {
            g.data@[(y * g.width + x) * 4 + c]
        } else {
            glyph_alpha(g.data@[(y * g.width + x) * 4 + 3], antialias)
        },
    }
}

/// A rectangle without pixels.
pub open spec fn rect_empty(r: URect) -> bool {
    r.max_x <= r.min_x || r.max_y <= r.min_y
}

/// The room a glyph takes in the packer: its rectangle and one pixel around.
pub open spec fn glyph_room(r: URect) -> (int, int, int, int) {
    (r.min_x - 1, r.min_y - 1, r.max_x + 1, r.max_y + 1)
}

/// The packer holds the room of a glyph at `r`.
pub open spec fn room_allocated(p: AtlasAllocator, r: URect) -> bool {
    exists|id: u32| #[trigger]
        packer_allocations(p).contains_key(id) && packer_allocations(p)[id] == glyph_room(r)
}

/// The largest side an atlas image may reach.
pub const MAX_ATLAS_SIDE: i32 = 0x4000_0000;

/// The side an atlas image starts with.
pub const INITIAL_ATLAS_SIDE: i32 = 512;

/// A glyph atlas: a packer, the glyphs placed so far, and the RGBA image they
/// are drawn into.
pub struct FontAtlas {
    key: FontAtlasKey,
    alloc: AtlasAllocator,
    map: HashMap<GlyphKey, usize>,
    nodes: Vec<GlyphNode>,
    image_width: u32,
    image_height: u32,
    pixels: Vec<u8>,
}

impl FontAtlas {
    /// Which glyphs the atlas serves.
    pub closed spec fn key(&self) -> FontAtlasKey {
        self.key
    }

    /// The placed glyphs, in placement order.
    pub closed spec fn nodes(&self) -> Seq<GlyphNode> {
        self.nodes@
    }

    /// The index of each placed glyph among the nodes.
    pub closed spec fn glyphs(&self) -> Map<GlyphKey, usize> {
        glyph_slots(self.map)
    }

    /// Width and height of the packer's page.
    pub closed spec fn extent(&self) -> (int, int) {
        packer_extent(self.alloc)
    }

    /// Whether the page, as it stands, has a free place for a rectangle of
    /// the given width and height.
    pub closed spec fn has_room(&self, width: int, height: int) -> bool {
        packer_fits(self.alloc, width, height)
    }

    /// Width of the image, 0 before any glyph with pixels is placed.
    pub closed spec fn image_width(&self) -> nat {
        self.image_width as nat
    }

    /// Height of the image, 0 before any glyph with pixels is placed.
    pub closed spec fn image_height(&self) -> nat {
        self.image_height as nat
    }

    /// The image's pixels, four bytes each, row after row.
    pub closed spec fn image(&self) -> Seq<u8> {
        self.pixels@
    }

    /// The packer's page is square-free of overlap and within the largest
    /// size, every stored index names a node, and the image matches its size
    /// and, once made, the page.
    pub closed spec fn wf(&self) -> bool {
        &&& packer_sound(self.alloc)
        &&& 1 <= packer_extent(self.alloc).0 <= MAX_ATLAS_SIDE
        &&& 1 <= packer_extent(self.alloc).1 <= MAX_ATLAS_SIDE
        &&& forall|k: GlyphKey| #[trigger]
            glyph_slots(self.map).contains_key(k) ==> glyph_slots(self.map)[k] < self.nodes@.len()
        &&& self.pixels@.len() == self.image_width * self.image_height * 4
        &&& self.image_width <= packer_extent(self.alloc).0
        &&& self.image_height <= packer_extent(self.alloc).1
        &&& forall|k: int|
            0 <= k < self.nodes@.len() && !rect_empty(#[trigger] self.nodes@[k].rect) ==> {
                &&& room_allocated(self.alloc, self.nodes@[k].rect)
                &&& self.nodes@[k].rect.max_x + 1 <= self.image_width
                &&& self.nodes@[k].rect.max_y + 1 <= self.image_height
            }
    }

    /// What a lookup of node `index` gives: its offset, rectangle and index.
    pub open spec fn info(&self, index: usize) -> ((i32, i32), URect, usize) {
        let n = self.nodes()[index as int];
        ((n.left, n.top), n.rect, index)
    }

    /// An empty atlas for the given glyphs, its page 512 pixels square.
    pub fn new(key: FontAtlasKey) -> (r: FontAtlas)
        ensures
            r.wf(),
            r.key() == key,
            r.nodes() == Seq::<GlyphNode>::empty(),
            r.glyphs() == Map::<GlyphKey, usize>::empty(),
            r.extent() == (INITIAL_ATLAS_SIDE as int, INITIAL_ATLAS_SIDE as int),
            r.image_width() == 0,
            r.image_height() == 0,
    {
        FontAtlas {
            key,
            alloc: packer_new(INITIAL_ATLAS_SIDE, INITIAL_ATLAS_SIDE),
            map: glyph_map_new(),
            nodes: Vec::new(),
            image_width: 0,
            image_height: 0,
            pixels: Vec::new(),
        }
    }

    /// The size of the packer's page.
    pub fn size(&self) -> (r: (u32, u32))
        requires
            self.wf(),
        ensures
            r.0 == self.extent().0,
            r.1 == self.extent().1,
    {
        let (w, h) = packer_size(&self.alloc);
        (w as u32, h as u32)
    }

    /// Width and height of the image.
    pub fn image_size(&self) -> (r: (u32, u32))
        ensures
            r.0 == self.image_width(),
            r.1 == self.image_height(),
    {
        (self.image_width, self.image_height)
    }

    /// The image's pixels.
    pub fn pixels(&self) -> (r: &[u8])
        ensures
            r@ == self.image(),
    {
        self.pixels.as_slice()
    }

    /// The node of a glyph, by its index.
    pub fn get_info_index(&self, index: usize) -> (r: Option<((i32, i32), URect)>)
        ensures
            r == (if index < self.nodes().len() {
                Some(((self.nodes()[index as int].left, self.nodes()[index as int].top), self.nodes()[index as int].rect))
            } else {
                None
            }),
    {
        if index < self.nodes.len() {
            let n = self.nodes[index];
            Some(((n.left, n.top), n.rect))
        } else {
            None
        }
    }

    /// The node of a placed glyph and its index.
    pub fn get_info(&self, key: &GlyphKey) -> (r: Option<((i32, i32), URect, usize)>)
        requires
            self.wf(),
        ensures
            r == (if self.glyphs().contains_key(*key) {
                Some(self.info(self.glyphs()[*key]))
            } else {
                None
            }),
    {
        match glyph_map_get(&self.map, key) {
            Some(index) => {
                let n = self.nodes[index];
                Some(((n.left, n.top), n.rect, index))
            },
            None => None,
        }
    }
}

} // verus!

verus! {

/// Every byte of an image `width` by `height` pixels, addressed by pixel and
/// channel, lies in its buffer.
proof fn lemma_offset_in_image(width: int, height: int, x: int, y: int, c: int)
    requires
        0 <= x < width,
        0 <= y < height,
        0 <= c < 4,
    ensures
        0 <= pixel_offset(width, x, y) + c < width * height * 4,
        pixel_offset(width, x, y) + 4 <= width * height * 4,
{
    assert(0 <= pixel_offset(width, x, y) + c < width * height * 4) by (nonlinear_arith)
        requires
            0 <= x < width,
            0 <= y < height,
            0 <= c < 4,
    ;
    assert(pixel_offset(width, x, y) + 4 <= width * height * 4) by (nonlinear_arith)
        requires
            0 <= x < width,
            0 <= y < height,
    ;
}

/// A transparent image `width` by `height` pixels with the image `old`,
/// `old_width` by `old_height` pixels, in its top-left corner.
fn grown_image(old: &Vec<u8>, old_width: u32, old_height: u32, width: u32, height: u32) -> (r: Vec<
    u8,
>)
    requires
        old@.len() == old_width * old_height * 4,
        old_width <= width,
        old_height <= height,
        width * height * 4 <= usize::MAX,
    ensures
        r@.len() == width * height * 4,
        forall|x: int, y: int, c: int|
            0 <= x < width && 0 <= y < height && 0 <= c < 4 ==> #[trigger] r@[pixel_offset(
                width as int,
                x,
                y,
            ) + c] == (if x < old_width && y < old_height {
                old@[pixel_offset(old_width as int, x, y) + c]
            } else {
                0
            }),
{
    let w = width as usize;
    let h = height as usize;
    let ow = old_width as usize;
    let oh = old_height as usize;
    let old_len = old.len();
    let mut r: Vec<u8> = vec![0u8; w * h * 4];
    proof {
        assert forall|k: int| 0 <= k < r@.len() implies r@[k] == 0 by {
            assert(vstd::pervasive::cloned(0u8, r@[k]));
        }
        assert forall|x: int, y: int, c: int|
            0 <= x < width && 0 <= y < height && 0 <= c < 4 implies #[trigger] r@[pixel_offset(
            width as int,
            x,
            y,
        ) + c] == 0 by {
            lemma_offset_in_image(width as int, height as int, x, y, c);
        }
    }
    let mut y: usize = 0;
    while y < oh
        invariant
            y <= oh,
            ow == old_width,
            oh == old_height,
            w == width,
            h == height,
            old_width <= width,
            old_height <= height,
            old@.len() == old_width * old_height * 4,
            old_len == old@.len(),
            width * height * 4 <= usize::MAX,
            r@.len() == width * height * 4,
            forall|px: int, py: int, c: int|
                0 <= px < width && 0 <= py < height && 0 <= c < 4 ==> #[trigger] r@[pixel_offset(
                    width as int,
                    px,
                    py,
                ) + c] == (if px < old_width && py < y {
                    old@[pixel_offset(old_width as int, px, py) + c]
                } else {
                    0
                }),
        decreases oh - y,
    {
        let mut x: usize = 0;
        while x < ow
            invariant
                y < oh,
                x <= ow,
                ow == old_width,
                oh == old_height,
                w == width,
                h == height,
                old_width <= width,
                old_height <= height,
                old@.len() == old_width * old_height * 4,
                old_len == old@.len(),
                width * height * 4 <= usize::MAX,
                r@.len() == width * height * 4,
                forall|px: int, py: int, c: int|
                    0 <= px < width && 0 <= py < height && 0 <= c < 4 ==> #[trigger] r@[pixel_offset(
                        width as int,
                        px,
                        py,
                    ) + c] == (if px < old_width && (py < y || (py == y && px < x)) {
                        old@[pixel_offset(old_width as int, px, py) + c]
                    } else {
                        0
                    }),
            decreases ow - x,
        {
            proof {
                lemma_offset_in_image(width as int, height as int, x as int, y as int, 0);
                lemma_offset_in_image(old_width as int, old_height as int, x as int, y as int, 0);
            }
            let dst = (y * w + x) * 4;
            let src = (y * ow + x) * 4;
            let ghost mid = r@;
            crate::atlas::blit::copy_pixel(&mut r, dst, old.as_slice(), src);
            proof {
                assert forall|px: int, py: int, c: int|
                    0 <= px < width && 0 <= py < height && 0 <= c < 4 implies #[trigger] r@[pixel_offset(
                    width as int,
                    px,
                    py,
                ) + c] == (if px < old_width && (py < y || (py == y && px < x + 1)) {
                    old@[pixel_offset(old_width as int, px, py) + c]
                } else {
                    0
                }) by {
                    crate::atlas::blit::lemma_pixel_bytes(width as int, px, py, c, x as int, y as int);
                    lemma_offset_in_image(width as int, height as int, px, py, c);
                    assert(mid[pixel_offset(width as int, px, py) + c] == (if px < old_width && (py
                        < y || (py == y && px < x)) {
                        old@[pixel_offset(old_width as int, px, py) + c]
                    } else {
                        0
                    }));
                }
            }
            x = x + 1;
        }
        y = y + 1;
    }
    proof {
        assert forall|px: int, py: int, c: int|
            0 <= px < width && 0 <= py < height && 0 <= c < 4 implies #[trigger] r@[pixel_offset(
            width as int,
            px,
            py,
        ) + c] == (if px < old_width && py < old_height {
            old@[pixel_offset(old_width as int, px, py) + c]
        } else {
            0
        }) by {}
    }
    r
}

} // verus!

verus! {

/// Sets the four bytes of the pixel at byte offset `dst`.
fn set_pixel(image: &mut Vec<u8>, dst: usize, px: [u8; 4])
    requires
        dst + 4 <= old(image)@.len(),
    ensures
        final(image)@.len() == old(image)@.len(),
        forall|i: int|
            0 <= i < old(image)@.len() ==> #[trigger] final(image)@[i] == (if dst <= i < dst + 4 {
                px@[i - dst]
            } else {
                old(image)@[i]
            }),
{
    let _image_len = image.len();
    image.set(dst, px[0]);
    image.set(dst + 1, px[1]);
    image.set(dst + 2, px[2]);
    image.set(dst + 3, px[3]);
}

/// The atlas pixel showing pixel `(x, y)` of a glyph.
fn glyph_pixel(g: &GlyphRaster, antialias: bool, x: u32, y: u32) -> (r: [u8; 4])
    requires
        g.wf(),
        x < g.width,
        y < g.height,
    ensures
        forall|c: int| 0 <= c < 4 ==> #[trigger] r@[c] == glyph_byte(*g, antialias, x as int, y as int, c),
{
    proof {
        assert((y * g.width + x) * g.stride() + g.stride() <= g.width * g.height * g.stride())
            by (nonlinear_arith)
            requires
                x < g.width,
                y < g.height,
                g.stride() >= 1,
        ;
    }
    let _data_len = g.data.len();
    let i = y as usize * g.width as usize + x as usize;
    let alpha = |a: u8| -> (r: u8)
        ensures
            r == glyph_alpha(a, antialias),
        {
            if antialias {
                a
            } else if a > 127 {
                255
            } else {
                0
            }
        };
    match g.content {
        GlyphContent::Mask => [255, 255, 255, alpha(g.data[i])],
        GlyphContent::Color => [g.data[i * 4], g.data[i * 4 + 1], g.data[i * 4 + 2], alpha(g.data[i * 4 + 3])],
    }
}

/// Draws a glyph into the rectangle `rect` of an image `width` by `height`
/// pixels, leaving every other pixel as it is.
fn draw_glyph(image: &mut Vec<u8>, width: u32, height: u32, rect: URect, g: &GlyphRaster, antialias: bool)
    requires
        old(image)@.len() == width * height * 4,
        width * height * 4 <= usize::MAX,
        g.wf(),
        rect.min_x <= rect.max_x <= width,
        rect.min_y <= rect.max_y <= height,
        rect.max_x - rect.min_x == g.width,
        rect.max_y - rect.min_y == g.height,
    ensures
        final(image)@.len() == old(image)@.len(),
        forall|x: int, y: int, c: int|
            0 <= x < width && 0 <= y < height && 0 <= c < 4 ==> #[trigger] final(image)@[pixel_offset(
                width as int,
                x,
                y,
            ) + c] == (if rect.min_x <= x < rect.max_x && rect.min_y <= y < rect.max_y {
                glyph_byte(*g, antialias, x - rect.min_x, y - rect.min_y, c)
            } else {
                old(image)@[pixel_offset(width as int, x, y) + c]
            }),
{
    let ghost before = image@;
    let w = width as usize;
    let mut gy: u32 = 0;
    while gy < g.height
        invariant
            gy <= g.height,
            w == width,
            before.len() == width * height * 4,
            width * height * 4 <= usize::MAX,
            image@.len() == before.len(),
            g.wf(),
            rect.min_x <= rect.max_x <= width,
            rect.min_y <= rect.max_y <= height,
            rect.max_x - rect.min_x == g.width,
            rect.max_y - rect.min_y == g.height,
            forall|x: int, y: int, c: int|
                0 <= x < width && 0 <= y < height && 0 <= c < 4 ==> #[trigger] image@[pixel_offset(
                    width as int,
                    x,
                    y,
                ) + c] == (if rect.min_x <= x < rect.max_x && rect.min_y <= y < rect.min_y + gy {
                    glyph_byte(*g, antialias, x - rect.min_x, y - rect.min_y, c)
                } else {
                    before[pixel_offset(width as int, x, y) + c]
                }),
        decreases g.height - gy,
    {
        let mut gx: u32 = 0;
        while gx < g.width
            invariant
                gy < g.height,
                gx <= g.width,
                w == width,
                before.len() == width * height * 4,
                width * height * 4 <= usize::MAX,
                image@.len() == before.len(),
                g.wf(),
                rect.min_x <= rect.max_x <= width,
                rect.min_y <= rect.max_y <= height,
                rect.max_x - rect.min_x == g.width,
                rect.max_y - rect.min_y == g.height,
                forall|x: int, y: int, c: int|
                    0 <= x < width && 0 <= y < height && 0 <= c < 4 ==> #[trigger] image@[pixel_offset(
                        width as int,
                        x,
                        y,
                    ) + c] == (if rect.min_x <= x < rect.max_x && (rect.min_y <= y < rect.min_y + gy
                        || (y == rect.min_y + gy && x < rect.min_x + gx)) {
                        glyph_byte(*g, antialias, x - rect.min_x, y - rect.min_y, c)
                    } else {
                        before[pixel_offset(width as int, x, y) + c]
                    }),
            decreases g.width - gx,
        {
            let x = rect.min_x + gx;
            let y = rect.min_y + gy;
            proof {
                lemma_offset_in_image(width as int, height as int, x as int, y as int, 0);
            }
            let px = glyph_pixel(g, antialias, gx, gy);
            let dst = (y as usize * w + x as usize) * 4;
            let ghost mid = image@;
            set_pixel(image, dst, px);
            proof {
                assert forall|qx: int, qy: int, c: int|
                    0 <= qx < width && 0 <= qy < height && 0 <= c < 4 implies #[trigger] image@[pixel_offset(
                    width as int,
                    qx,
                    qy,
                ) + c] == (if rect.min_x <= qx < rect.max_x && (rect.min_y <= qy < rect.min_y + gy
                    || (qy == rect.min_y + gy && qx < rect.min_x + gx + 1)) {
                    glyph_byte(*g, antialias, qx - rect.min_x, qy - rect.min_y, c)
                } else {
                    before[pixel_offset(width as int, qx, qy) + c]
                }) by {
                    crate::atlas::blit::lemma_pixel_bytes(width as int, qx, qy, c, x as int, y as int);
                    lemma_offset_in_image(width as int, height as int, qx, qy, c);
                    assert(mid[pixel_offset(width as int, qx, qy) + c] == (if rect.min_x <= qx
                        < rect.max_x && (rect.min_y <= qy < rect.min_y + gy || (qy == rect.min_y + gy
                        && qx < rect.min_x + gx)) {
                        glyph_byte(*g, antialias, qx - rect.min_x, qy - rect.min_y, c)
                    } else {
                        before[pixel_offset(width as int, qx, qy) + c]
                    }));
                    if qx == x && qy == y {
                        assert(px@[c] == glyph_byte(*g, antialias, gx as int, gy as int, c));
                    }
                }
            }
            gx = gx + 1;
        }
        gy = gy + 1;
    }
}

} // verus!

verus! {

/// The image `b` shows after a glyph is drawn at `rect` into the image `a`
/// shows, grown to `b`'s size: the glyph in its rectangle, `a`'s pixels where
/// `a`'s image reaches, and transparency elsewhere.
pub open spec fn glyph_drawn(a: FontAtlas, b: FontAtlas, rect: URect, g: GlyphRaster) -> bool {
    let w = b.image_width() as int;
    let h = b.image_height() as int;
    forall|x: int, y: int, c: int|
        0 <= x < w && 0 <= y < h && 0 <= c < 4 ==> #[trigger] b.image()[pixel_offset(w, x, y) + c]
            == (if rect.min_x <= x < rect.max_x && rect.min_y <= y < rect.max_y {
            glyph_byte(g, a.key().antialias, x - rect.min_x, y - rect.min_y, c)
        } else if x < a.image_width() && y < a.image_height() {
            a.image()[pixel_offset(a.image_width() as int, x, y) + c]
        } else {
            0
        })
}

/// Why a glyph with pixels finds no room, given the atlas it leaves: the
/// glyph with its border is wider or taller than the largest page, or the
/// page has no place for it and cannot double once more, or the image of the
/// page would not fit in memory.
pub open spec fn atlas_full(g: GlyphRaster, b: FontAtlas) -> bool {
    ||| g.width > MAX_ATLAS_SIDE - 2
    ||| g.height > MAX_ATLAS_SIDE - 2
    ||| !b.has_room(g.width + 2, g.height + 2) && (b.extent().0 > MAX_ATLAS_SIDE / 2 || b.extent().1
        > MAX_ATLAS_SIDE / 2)
    ||| b.extent().0 * b.extent().1 * 4 > usize::MAX
}

/// What placing the glyph `key`, rasterized as `g`, leaves: the atlas `b`
/// from `a`, and the result `r`.
pub open spec fn glyph_outcome(
    a: FontAtlas,
    b: FontAtlas,
    key: GlyphKey,
    g: Option<GlyphRaster>,
    r: Result<((i32, i32), URect, usize), FontLayoutError>,
) -> bool {
    let same_content = b.nodes() == a.nodes() && b.glyphs() == a.glyphs() && b.image() == a.image()
        && b.image_width() == a.image_width() && b.image_height() == a.image_height();
    match g {
        None => r == Err::<((i32, i32), URect, usize), FontLayoutError>(
            FontLayoutError::NoGlyphImage(key),
        ) && same_content,
        Some(g) => match r {
            Err(e) => e == FontLayoutError::AtlasFull(key) && g.width > 0 && g.height > 0
                && same_content && atlas_full(g, b),
            Ok(info) => {
                let index = a.nodes().len();
                &&& info.0 == (g.left, g.top)
                &&& info.2 == index
                &&& b.nodes() == a.nodes().push(GlyphNode { left: g.left, top: g.top, rect: info.1 })
                &&& b.glyphs() == a.glyphs().insert(key, index as usize)
                &&& (g.width == 0 || g.height == 0) ==> {
                    &&& info.1 == URect { min_x: 0, min_y: 0, max_x: g.width, max_y: g.height }
                    &&& b.image() == a.image()
                    &&& b.image_width() == a.image_width()
                    &&& b.image_height() == a.image_height()
                }
                &&& (g.width > 0 && g.height > 0) ==> {
                    &&& forall|k: int|
                        0 <= k < a.nodes().len() && !rect_empty(#[trigger] a.nodes()[k].rect)
                            ==> rects_disjoint(glyph_room(a.nodes()[k].rect), glyph_room(info.1))
                    &&& a.image_width() <= b.image_width()
                    &&& a.image_height() <= b.image_height()
                    &&& info.1.max_x - info.1.min_x == g.width
                    &&& info.1.max_y - info.1.min_y == g.height
                    &&& 1 <= info.1.min_x
                    &&& 1 <= info.1.min_y
                    &&& info.1.max_x + 1 <= b.image_width()
                    &&& info.1.max_y + 1 <= b.image_height()
                    &&& b.image_width() == b.extent().0
                    &&& b.image_height() == b.extent().1
                    &&& b.extent() != a.extent() ==> !a.has_room(g.width + 2, g.height + 2)
                    &&& glyph_drawn(a, b, info.1, g)
                }
            },
        },
    }
}

/// An atlas whose packer is sound and within bounds, holding what a
/// well-formed atlas holds, is well-formed.
proof fn lemma_same_content_wf(a: FontAtlas, b: FontAtlas)
    requires
        a.wf(),
        packer_sound(b.alloc),
        1 <= packer_extent(b.alloc).0 <= MAX_ATLAS_SIDE,
        1 <= packer_extent(b.alloc).1 <= MAX_ATLAS_SIDE,
        packer_extent(a.alloc).0 <= packer_extent(b.alloc).0,
        packer_extent(a.alloc).1 <= packer_extent(b.alloc).1,
        b.key == a.key,
        b.map == a.map,
        b.nodes == a.nodes,
        b.pixels == a.pixels,
        b.image_width == a.image_width,
        b.image_height == a.image_height,
        forall|id: u32| #[trigger]
            packer_allocations(a.alloc).contains_key(id) ==> packer_allocations(b.alloc).contains_key(
                id,
            ) && packer_allocations(b.alloc)[id] == packer_allocations(a.alloc)[id],
    ensures
        b.wf(),
        b.key() == a.key(),
        b.nodes() == a.nodes(),
        b.glyphs() == a.glyphs(),
        b.image() == a.image(),
        b.image_width() == a.image_width(),
        b.image_height() == a.image_height(),
{
    assert forall|k: int|
        0 <= k < b.nodes@.len() && !rect_empty(#[trigger] b.nodes@[k].rect) implies room_allocated(
        b.alloc,
        b.nodes@[k].rect,
    ) by {
        assert(room_allocated(a.alloc, a.nodes@[k].rect));
        let id = choose|id: u32| #[trigger]
            packer_allocations(a.alloc).contains_key(id) && packer_allocations(a.alloc)[id]
                == glyph_room(a.nodes@[k].rect);
        assert(packer_allocations(b.alloc).contains_key(id));
    }
}

impl FontAtlas {
    /// The node of the glyph `key`, placing it first if it is not in the atlas
    /// yet.
    ///
    /// A glyph not yet placed is rasterized by `raster`. A glyph without
    /// pixels gets an empty rectangle; any other is packed with one pixel of
    /// room on each side, doubling the page until it fits, and drawn into the
    /// image, which grows to the page's size keeping what it showed.
    pub fn get_or_create_info<F: FnOnce() -> Option<GlyphRaster>>(&mut self, key: GlyphKey, raster: F) -> (r: Result<
        ((i32, i32), URect, usize),
        FontLayoutError,
    >)
        requires
            old(self).wf(),
            raster.requires(()),
            forall|g: GlyphRaster| raster.ensures((), Some(g)) ==> g.wf(),
        ensures
            final(self).wf(),
            final(self).key() == old(self).key(),
            old(self).glyphs().contains_key(key) ==> r == Ok::<
                ((i32, i32), URect, usize),
                FontLayoutError,
            >(old(self).info(old(self).glyphs()[key])) && *final(self) == *old(self),
            !old(self).glyphs().contains_key(key) ==> exists|g: Option<GlyphRaster>|
                raster.ensures((), g) && glyph_outcome(*old(self), *final(self), key, g, r),
            r matches Ok(info) ==> {
                &&& final(self).glyphs().contains_key(key)
                &&& final(self).glyphs()[key] == info.2
                &&& info.2 < final(self).nodes().len()
                &&& final(self).info(info.2) == info
            },
    {
        if let Some(index) = glyph_map_get(&self.map, &key) {
            let n = self.nodes[index];
            return Ok(((n.left, n.top), n.rect, index));
        }
        let ghost start = *self;
        let image = raster();
        let g = match image {
            Some(g) => g,
            None => {
                proof {
                    assert(glyph_outcome(start, *self, key, image, Err(FontLayoutError::NoGlyphImage(key))));
                }
                return Err(FontLayoutError::NoGlyphImage(key));
            },
        };
        if g.width == 0 || g.height == 0 {
            let index = self.nodes.len();
            glyph_map_insert(&mut self.map, key, index);
            let rect = URect::new(0, 0, g.width, g.height);
            self.nodes.push(GlyphNode { left: g.left, top: g.top, rect });
            proof {
                assert(glyph_outcome(start, *self, key, image, Ok(((g.left, g.top), rect, index))));
            }
            return Ok(((g.left, g.top), rect, index));
        }
        if g.width > (MAX_ATLAS_SIDE - 2) as u32 || g.height > (MAX_ATLAS_SIDE - 2) as u32 {
            proof {
                assert(glyph_outcome(start, *self, key, image, Err(FontLayoutError::AtlasFull(key))));
            }
            return Err(FontLayoutError::AtlasFull(key));
        }
        let request_w = g.width as i32 + 2;
        let request_h = g.height as i32 + 2;
        loop
            invariant
                packer_sound(self.alloc),
                1 <= packer_extent(self.alloc).0 <= MAX_ATLAS_SIDE,
                1 <= packer_extent(self.alloc).1 <= MAX_ATLAS_SIDE,
                self.key == start.key,
                self.map == start.map,
                self.nodes == start.nodes,
                self.pixels == start.pixels,
                self.image_width == start.image_width,
                self.image_height == start.image_height,
                start.wf(),
                image == Some(g),
                g.wf(),
                0 < g.width <= MAX_ATLAS_SIDE - 2,
                0 < g.height <= MAX_ATLAS_SIDE - 2,
                request_w == g.width + 2,
                request_h == g.height + 2,
                !glyph_slots(self.map).contains_key(key),
                packer_extent(start.alloc).0 <= packer_extent(self.alloc).0,
                packer_extent(start.alloc).1 <= packer_extent(self.alloc).1,
                packer_allocations(self.alloc) == packer_allocations(start.alloc),
                packer_extent(self.alloc) == packer_extent(start.alloc) ==> self.alloc == start.alloc,
                packer_extent(self.alloc) != packer_extent(start.alloc) ==> !packer_fits(
                    start.alloc,
                    request_w as int,
                    request_h as int,
                ),
                start == *old(self),
                !old(self).glyphs().contains_key(key),
                raster.ensures((), image),
            decreases MAX_ATLAS_SIDE - packer_extent(self.alloc).0,
        {
            match packer_allocate(&mut self.alloc, request_w, request_h) {
                Some((id, room)) => {
                    let (w, h) = packer_size(&self.alloc);
                    let width = w as u32;
                    let height = h as u32;
                    let bytes = match (width as usize).checked_mul(height as usize) {
                        Some(n) => n.checked_mul(4),
                        None => None,
                    };
                    if bytes.is_none() {
                        proof {
                            lemma_same_content_wf(start, *self);
                            assert(glyph_outcome(start, *self, key, image, Err(FontLayoutError::AtlasFull(key))));
                        }
                        return Err(FontLayoutError::AtlasFull(key));
                    }
                    let rect = URect::new(
                        room.0 as u32 + 1,
                        room.1 as u32 + 1,
                        room.2 as u32 - 1,
                        room.3 as u32 - 1,
                    );
                    if self.image_width != width || self.image_height != height {
                        let grown = grown_image(
                            &self.pixels,
                            self.image_width,
                            self.image_height,
                            width,
                            height,
                        );
                        self.pixels = grown;
                        self.image_width = width;
                        self.image_height = height;
                    }
                    let ghost before_draw = self.pixels@;
                    draw_glyph(&mut self.pixels, width, height, rect, &g, self.key.antialias);
                    let index = self.nodes.len();
                    glyph_map_insert(&mut self.map, key, index);
                    self.nodes.push(GlyphNode { left: g.left, top: g.top, rect });
                    proof {
                        let allocs0 = packer_allocations(start.alloc);
                        let allocs = packer_allocations(self.alloc);
                        assert(glyph_room(rect) == rect_int(room));
                        assert(glyph_drawn(start, *self, rect, g));
                        assert forall|k: int|
                            0 <= k < start.nodes@.len() && !rect_empty(
                                #[trigger] start.nodes@[k].rect,
                            ) implies rects_disjoint(
                            glyph_room(start.nodes@[k].rect),
                            glyph_room(rect),
                        ) by {
                            assert(room_allocated(start.alloc, start.nodes@[k].rect));
                            let j = choose|j: u32| #[trigger]
                                allocs0.contains_key(j) && allocs0[j] == glyph_room(
                                    start.nodes@[k].rect,
                                );
                            assert(allocs0.contains_key(j));
                        }
                        assert forall|k: int|
                            0 <= k < self.nodes@.len() && !rect_empty(
                                #[trigger] self.nodes@[k].rect,
                            ) implies {
                            &&& room_allocated(self.alloc, self.nodes@[k].rect)
                            &&& self.nodes@[k].rect.max_x + 1 <= self.image_width
                            &&& self.nodes@[k].rect.max_y + 1 <= self.image_height
                        } by {
                            if k < start.nodes@.len() {
                                assert(self.nodes@[k] == start.nodes@[k]);
                                assert(room_allocated(start.alloc, start.nodes@[k].rect));
                                let j = choose|j: u32| #[trigger]
                                    allocs0.contains_key(j) && allocs0[j] == glyph_room(
                                        start.nodes@[k].rect,
                                    );
                                assert(allocs.contains_key(j));
                            } else {
                                assert(self.nodes@[k].rect == rect);
                                assert(allocs.contains_key(id));
                            }
                        }
                        assert(glyph_outcome(start, *self, key, image, Ok(((g.left, g.top), rect, index))));
                    }
                    return Ok(((g.left, g.top), rect, index));
                },
                None => {
                    let (w, h) = packer_size(&self.alloc);
                    if w > MAX_ATLAS_SIDE / 2 || h > MAX_ATLAS_SIDE / 2 {
                        proof {
                            assert(!self.has_room(g.width + 2, g.height + 2));
                            lemma_same_content_wf(start, *self);
                            assert(glyph_outcome(start, *self, key, image, Err(FontLayoutError::AtlasFull(key))));
                        }
                        return Err(FontLayoutError::AtlasFull(key));
                    }
                    packer_grow(&mut self.alloc, w * 2, h * 2);
                },
            }
        }
    }
}

} // verus!

verus! {

/// A glyph is rasterized once: after it is placed, looking it up gives what
/// placing it returned.
pub proof fn law_glyph_cached(
    a: FontAtlas,
    b: FontAtlas,
    key: GlyphKey,
    g: GlyphRaster,
    info: ((i32, i32), URect, usize),
)
    requires
        glyph_outcome(a, b, key, Some(g), Ok(info)),
    ensures
        b.glyphs().contains_key(key),
        b.info(b.glyphs()[key]) == info,
{
    assert(b.nodes()[a.nodes().len() as int] == GlyphNode { left: g.left, top: g.top, rect: info.1 });
}

} // verus!

verus! {

/// Placing a glyph never changes how an earlier glyph looks: every pixel of
/// an earlier glyph's rectangle shows the same bytes afterwards.
pub proof fn law_glyph_keeps_earlier(
    a: FontAtlas,
    b: FontAtlas,
    key: GlyphKey,
    g: GlyphRaster,
    info: ((i32, i32), URect, usize),
    k: int,
    x: int,
    y: int,
    c: int,
)
    requires
        a.wf(),
        glyph_outcome(a, b, key, Some(g), Ok(info)),
        0 <= k < a.nodes().len(),
        a.nodes()[k].rect.min_x <= x < a.nodes()[k].rect.max_x,
        a.nodes()[k].rect.min_y <= y < a.nodes()[k].rect.max_y,
        0 <= c < 4,
    ensures
        b.image()[pixel_offset(b.image_width() as int, x, y) + c] == a.image()[pixel_offset(
            a.image_width() as int,
            x,
            y,
        ) + c],
{
    let r = a.nodes()[k].rect;
    assert(!rect_empty(r));
    assert(a.nodes@[k].rect == r);
    if g.width == 0 || g.height == 0 {
    } else {
        assert(rects_disjoint(glyph_room(r), glyph_room(info.1)));
    }
}

} // verus!

verus! {

/// The atlas of each atlas key, by its key as `(font size bits, antialias)`.
pub uninterp spec fn font_atlas_ids(m: HashMap<(u32, bool), usize>) -> Map<(u32, bool), usize>;

/// `HashMap::new`: no atlas registered.
#[verifier::external_body]
fn atlas_ids_new() -> (r: HashMap<(u32, bool), usize>)
    ensures
        font_atlas_ids(r) =~= Map::empty(),
{
    HashMap::new()
}

/// `HashMap::get`: the atlas registered for a key, if any.
#[verifier::external_body]
fn atlas_ids_get(m: &HashMap<(u32, bool), usize>, k: (u32, bool)) -> (r: Option<usize>)
    ensures
        r == (if font_atlas_ids(*m).contains_key(k) {
            Some(font_atlas_ids(*m)[k])
        } else {
            None
        }),
{
    m.get(&k).copied()
}

/// `HashMap::insert`: registers an atlas for a key, returning the one it
/// replaces.
#[verifier::external_body]
fn atlas_ids_insert(m: &mut HashMap<(u32, bool), usize>, k: (u32, bool), v: usize) -> (r: Option<usize>)
    ensures
        font_atlas_ids(*final(m)) == font_atlas_ids(*old(m)).insert(k, v),
        r == (if font_atlas_ids(*old(m)).contains_key(k) {
            Some(font_atlas_ids(*old(m))[k])
        } else {
            None
        }),
{
    m.insert(k, v)
}

/// The font atlases made so far, by atlas key; each is named by its index
/// in the store of atlases.
pub struct FontAtlases {
    ids: HashMap<(u32, bool), usize>,
}

/// An atlas key as the registry keys it.
pub open spec fn key_pair(k: FontAtlasKey) -> (u32, bool) {
    (k.font_size, k.antialias)
}

/// A new atlas for a key: empty, with the initial page size.
pub open spec fn is_fresh_atlas(a: FontAtlas, key: FontAtlasKey) -> bool {
    &&& a.wf()
    &&& a.key() == key
    &&& a.nodes() == Seq::<GlyphNode>::empty()
    &&& a.glyphs() == Map::<GlyphKey, usize>::empty()
    &&& a.extent() == (INITIAL_ATLAS_SIDE as int, INITIAL_ATLAS_SIDE as int)
}

impl FontAtlases {
    /// The registered atlases, by key.
    pub closed spec fn ids(&self) -> Map<(u32, bool), usize> {
        font_atlas_ids(self.ids)
    }

    /// Every registered atlas is in the store and has its key.
    pub open spec fn fits(&self, atlases: Seq<FontAtlas>) -> bool {
        forall|k: (u32, bool)| #[trigger]
            self.ids().contains_key(k) ==> self.ids()[k] < atlases.len() && key_pair(atlases[self.ids()[k] as int].key()) == k
    }

    /// No atlas registered.
    pub fn new() -> (r: FontAtlases)
        ensures
            r.ids() == Map::<(u32, bool), usize>::empty(),
    {
        FontAtlases { ids: atlas_ids_new() }
    }

    /// The atlas for `key`: the registered one, or else a new empty one,
    /// added to the store and registered.
    pub fn atlas_mut(&mut self, key: FontAtlasKey, atlases: &mut Vec<FontAtlas>) -> (r: usize)
        requires
            old(self).fits(old(atlases)@),
        ensures
            final(self).fits(final(atlases)@),
            r < final(atlases)@.len(),
            final(atlases)@[r as int].key() == key,
            old(self).ids().contains_key(key_pair(key)) ==> {
                &&& r == old(self).ids()[key_pair(key)]
                &&& final(atlases)@ == old(atlases)@
                &&& final(self).ids() == old(self).ids()
            },
            !old(self).ids().contains_key(key_pair(key)) ==> {
                &&& r == old(atlases)@.len()
                &&& final(atlases)@.len() == old(atlases)@.len() + 1
                &&& final(atlases)@.subrange(0, r as int) == old(atlases)@
                &&& is_fresh_atlas(final(atlases)@[r as int], key)
                &&& final(self).ids() == old(self).ids().insert(key_pair(key), r)
            },
    {
        let k = (key.font_size, key.antialias);
        match atlas_ids_get(&self.ids, k) {
            Some(id) => {
                proof {
                    assert(self.ids().contains_key(k));
                }
                id
            },
            None => {
                let id = atlases.len();
                atlases.push(FontAtlas::new(key));
                atlas_ids_insert(&mut self.ids, k, id);
                proof {
                    assert(atlases@.subrange(0, id as int) =~= old(atlases)@);
                    assert forall|j: (u32, bool)| #[trigger] self.ids().contains_key(j) implies self.ids()[j] < atlases@.len()
                        && key_pair(atlases@[self.ids()[j] as int].key()) == j by {
                        if j != k {
                            assert(old(self).ids().contains_key(j));
                            assert(atlases@[old(self).ids()[j] as int] == old(atlases)@[old(self).ids()[j] as int]);
                        }
                    }
                }
                id
            },
        }
    }
}

} // verus!
