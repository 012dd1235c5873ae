//! Copying a sprite into an atlas page, with edge bleeding.
//!
//! A page is an RGBA image, four bytes a pixel, row after row. The sprite's
//! own pixels go to a box of the page; around that box, up to `bleed` pixels
//! on each side repeat the nearest edge pixel of the sprite.

use vstd::prelude::*;

verus! {

/// Bytes per pixel of an RGBA page.
pub const PIXEL_SIZE: usize = 4;

/// `v` clamped into `[0, n)`, for `n > 0`.
pub open spec fn clamp_index(v: int, n: int) -> int {
    if v < 0 {
        0
    } else if v >= n {
        n - 1
    } else {
        v
    }
}

/// Byte offset of pixel `(x, y)` in an RGBA image `width` pixels wide.
pub open spec fn pixel_offset(width: int, x: int, y: int) -> int {
    (y * width + x) * 4
}

/// Where a sprite goes on a page and where its pixels come from.
#[derive(Clone, Copy, Debug, PartialEq, Eq, Structural)]
pub struct Placement {
    /// Page column of the sprite's first pixel column.
    pub x: usize,
    /// Page row of the sprite's first pixel row.
    pub y: usize,
    /// Width of the sprite's own pixels.
    pub width: usize,
    /// Height of the sprite's own pixels.
    pub height: usize,
    /// Whether the source image carries a guide row on top and a guide
    /// column on the left, which are skipped.
    pub guided: bool,
    /// How many pixels of bleeding surround the sprite.
    pub bleed: usize,
}

impl Placement {
    /// 1 where the source image carries guides, else 0.
    pub open spec fn skip(self) -> int {
        if self.guided {
            1
        } else {
            0
        }
    }

    /// Width of the source image.
    pub open spec fn source_width(self) -> int {
        self.width + self.skip()
    }

    /// Height of the source image.
    pub open spec fn source_height(self) -> int {
        self.height + self.skip()
    }

    /// Whether page pixel `(px, py)` lies in the sprite's box grown by the bleed.
    pub open spec fn covers(self, px: int, py: int) -> bool {
        &&& self.x - self.bleed <= px < self.x + self.width + self.bleed
        &&& self.y - self.bleed <= py < self.y + self.height + self.bleed
    }

    /// Byte offset, in the source image, of the pixel that page pixel
    /// `(px, py)` shows: the nearest pixel of the sprite.
    pub open spec fn source_offset(self, px: int, py: int) -> int {
        let sx = clamp_index(px - self.x, self.width as int);
        let sy = clamp_index(py - self.y, self.height as int);
        pixel_offset(self.source_width(), sx + self.skip(), sy + self.skip())
    }

    /// The placement fits a page of the given size and draws from a source
    /// image of the given byte length.
    pub open spec fn fits(self, page_width: int, page_height: int, source_len: int) -> bool {
        &&& self.width >= 1
        &&& self.height >= 1
        &&& self.bleed <= self.x
        &&& self.bleed <= self.y
        &&& self.x + self.width + self.bleed <= page_width
        &&& self.y + self.height + self.bleed <= page_height
        &&& self.source_width() * self.source_height() * 4 <= source_len
    }
}

/// `after` is `before` with a sprite copied in: every pixel the placement
/// covers shows the nearest sprite pixel, every other pixel is unchanged.
pub open spec fn blitted(
    before: Seq<u8>,
    after: Seq<u8>,
    page_width: int,
    page_height: int,
    p: Placement,
    source: Seq<u8>,
) -> bool {
    &&& after.len() == before.len()
    &&& forall|px: int, py: int, c: int|
        0 <= px < page_width && 0 <= py < page_height && 0 <= c < 4 ==> #[trigger] after[pixel_offset(
            page_width,
            px,
            py,
        ) + c] == (if p.covers(px, py) {
            source[p.source_offset(px, py) + c]
        } else {
            before[pixel_offset(page_width, px, py) + c]
        })
}

/// Two pixels of an image share no byte unless they are the same pixel.
pub(crate) proof fn lemma_pixel_bytes(width: int, x: int, y: int, c: int, x2: int, y2: int)
    requires
        width > 0,
        0 <= x < width,
        0 <= x2 < width,
        0 <= c < 4,
        y >= 0,
        y2 >= 0,
    ensures
        (pixel_offset(width, x2, y2) <= pixel_offset(width, x, y) + c < pixel_offset(width, x2, y2)
            + 4) <==> (x == x2 && y == y2),
{
    let p = y * width + x;
    let p2 = y2 * width + x2;
    if p == p2 {
        vstd::arithmetic::div_mod::lemma_fundamental_div_mod_converse(p, width, y, x);
        vstd::arithmetic::div_mod::lemma_fundamental_div_mod_converse(p, width, y2, x2);
    }
    if x == x2 && y == y2 {
        assert(p == p2);
    }
}

/// Sets the four bytes of the pixel at byte offset `dst` of `page` to those at
/// byte offset `src` of `source`.
pub(crate) fn copy_pixel(page: &mut Vec<u8>, dst: usize, source: &[u8], src: usize)
    requires
        dst + 4 <= old(page)@.len(),
        src + 4 <= source@.len(),
    ensures
        final(page)@.len() == old(page)@.len(),
        forall|i: int|
            0 <= i < old(page)@.len() ==> #[trigger] final(page)@[i] == (if dst <= i < dst + 4 {
                source@[src + i - dst]
            } else {
                old(page)@[i]
            }),
{
    let _page_len = page.len();
    let _source_len = source.len();
    page.set(dst, source[src]);
    page.set(dst + 1, source[src + 1]);
    page.set(dst + 2, source[src + 2]);
    page.set(dst + 3, source[src + 3]);
}

/// The source byte offset for sprite pixel `(sx, sy)` is in range.
proof fn lemma_source_in_range(p: Placement, sx: int, sy: int)
    requires
        0 <= sx < p.width,
        0 <= sy < p.height,
    ensures
        0 <= pixel_offset(p.source_width(), sx + p.skip(), sy + p.skip()) + 4 <= p.source_width()
            * p.source_height() * 4,
{
    let w = p.source_width();
    let h = p.source_height();
    let x = sx + p.skip();
    let y = sy + p.skip();
    assert(0 <= x < w);
    assert(0 <= y < h);
    assert((y * w + x) * 4 + 4 <= w * h * 4) by (nonlinear_arith)
        requires
            0 <= x < w,
            0 <= y < h,
    ;
    assert(0 <= (y * w + x) * 4) by (nonlinear_arith)
        requires
            0 <= x,
            0 <= y,
            0 <= w,
    ;
}

/// Copies the sprite `source` into `page`, an RGBA image `page_width` by
/// `page_height` pixels, at `p`, repeating the sprite's edge pixels over the
/// bleed around it.
pub fn blit_sprite(
    page: &mut Vec<u8>,
    page_width: usize,
    page_height: usize,
    p: Placement,
    source: &[u8],
)
    requires
        old(page)@.len() == page_width * page_height * 4,
        p.fits(page_width as int, page_height as int, source@.len() as int),
    ensures
        blitted(
            old(page)@,
            final(page)@,
            page_width as int,
            page_height as int,
            p,
            source@,
        ),
{
    let ghost before = page@;
    let page_len = page.len();
    let source_len = source.len();
    proof {
        assert(p.source_width() <= p.source_width() * p.source_height()) by (nonlinear_arith)
            requires
                p.source_height() >= 1,
                p.source_width() >= 0,
        ;
    }
    let skip: usize = if p.guided {
        1
    } else {
        0
    };
    let stride = p.width + skip;
    let rows = p.height + 2 * p.bleed;
    let cols = p.width + 2 * p.bleed;
    let top = p.y - p.bleed;
    let left = p.x - p.bleed;
    let mut ry: usize = 0;
    while ry < rows
        invariant
            before.len() == page_width * page_height * 4,
            page_len == before.len(),
            source_len == source@.len(),
            page@.len() == before.len(),
            p.fits(page_width as int, page_height as int, source@.len() as int),
            skip == p.skip(),
            stride == p.source_width(),
            rows == p.height + 2 * p.bleed,
            cols == p.width + 2 * p.bleed,
            top == p.y - p.bleed,
            left == p.x - p.bleed,
            ry <= rows,
            forall|px: int, py: int, c: int|
                0 <= px < page_width && 0 <= py < page_height && 0 <= c < 4 ==> #[trigger] page@[pixel_offset(
                    page_width as int,
                    px,
                    py,
                ) + c] == (if p.covers(px, py) && py < top + ry {
                    source@[p.source_offset(px, py) + c]
                } else {
                    before[pixel_offset(page_width as int, px, py) + c]
                }),
        decreases rows - ry,
    {
        let py = top + ry;
        let sy = if ry < p.bleed {
            0
        } else if ry - p.bleed >= p.height {
            p.height - 1
        } else {
            ry - p.bleed
        };
        let mut rx: usize = 0;
        while rx < cols
            invariant
                before.len() == page_width * page_height * 4,
                page_len == before.len(),
                source_len == source@.len(),
                page@.len() == before.len(),
                p.fits(page_width as int, page_height as int, source@.len() as int),
                skip == p.skip(),
                stride == p.source_width(),
                rows == p.height + 2 * p.bleed,
                cols == p.width + 2 * p.bleed,
                top == p.y - p.bleed,
                left == p.x - p.bleed,
                ry < rows,
                py == top + ry,
                sy == clamp_index(py - p.y, p.height as int),
                rx <= cols,
                forall|px: int, py2: int, c: int|
                    0 <= px < page_width && 0 <= py2 < page_height && 0 <= c < 4 ==> #[trigger] page@[pixel_offset(
                        page_width as int,
                        px,
                        py2,
                    ) + c] == (if p.covers(px, py2) && (py2 < py || (py2 == py && px < left
                        + rx)) {
                        source@[p.source_offset(px, py2) + c]
                    } else {
                        before[pixel_offset(page_width as int, px, py2) + c]
                    }),
            decreases cols - rx,
        {
            let px = left + rx;
            let sx = if rx < p.bleed {
                0
            } else if rx - p.bleed >= p.width {
                p.width - 1
            } else {
                rx - p.bleed
            };
            proof {
                assert(py < page_height);
                assert(px < page_width);
                assert((py * page_width + px) * 4 + 4 <= page_width * page_height * 4)
                    by (nonlinear_arith)
                    requires
                        px < page_width,
                        py < page_height,
                ;
                lemma_source_in_range(p, sx as int, sy as int);
                assert(((sy + skip) * stride + sx + skip) * 4 == pixel_offset(
                    p.source_width(),
                    sx + p.skip(),
                    sy + p.skip(),
                ));
                assert(sx == clamp_index(px - p.x, p.width as int));
            }
            let dst = (py * page_width + px) * 4;
            let src = ((sy + skip) * stride + sx + skip) * 4;
            let ghost mid = page@;
            copy_pixel(page, dst, source, src);
            proof {
                assert forall|qx: int, qy: int, c: int|
                    0 <= qx < page_width && 0 <= qy < page_height && 0 <= c < 4 implies #[trigger] page@[pixel_offset(
                        page_width as int,
                        qx,
                        qy,
                    ) + c] == (if p.covers(qx, qy) && (qy < py || (qy == py && qx < left + rx
                        + 1)) {
                        source@[p.source_offset(qx, qy) + c]
                    } else {
                        before[pixel_offset(page_width as int, qx, qy) + c]
                    }) by {
                    lemma_pixel_bytes(page_width as int, qx, qy, c, px as int, py as int);
                    assert(0 <= pixel_offset(page_width as int, qx, qy)) by (nonlinear_arith)
                        requires
                            0 <= qx,
                            0 <= qy,
                            0 <= page_width,
                    ;
                    assert(pixel_offset(page_width as int, qx, qy) + c < page_width * page_height
                        * 4) by (nonlinear_arith)
                        requires
                            0 <= qx < page_width,
                            0 <= qy < page_height,
                            0 <= c < 4,
                    ;
                    assert(mid[pixel_offset(page_width as int, qx, qy) + c] == (if p.covers(qx, qy)
                        && (qy < py || (qy == py && qx < left + rx)) {
                        source@[p.source_offset(qx, qy) + c]
                    } else {
                        before[pixel_offset(page_width as int, qx, qy) + c]
                    }));
                }
            }
            rx = rx + 1;
        }
        ry = ry + 1;
    }
}

} // verus!
