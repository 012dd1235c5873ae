//! Nine-slice cuts read from the guide pixels of a sprite.
//!
//! A nine-slice sprite carries a one-pixel guide row on top and a one-pixel
//! guide column on the left. The opaque run of the guide row marks the
//! horizontal middle band, the opaque run of the guide column the vertical one.

use vstd::prelude::*;

verus! {

/// Alpha values from this one up count as opaque.
pub const OPAQUE_ALPHA: u8 = 127;

/// Horizontal and vertical cuts that split a sprite into nine patches.
#[derive(Clone, Copy, Debug, PartialEq, Eq, Structural)]
pub struct NineSliceCuts {
    /// The leftmost vertical cut.
    pub left: u32,
    /// The rightmost vertical cut.
    pub right: u32,
    /// The topmost horizontal cut.
    pub top: u32,
    /// The bottommost horizontal cut.
    pub bottom: u32,
}

/// Index of the first opaque value of `s` at or after `from`, or `s.len()`.
pub open spec fn first_opaque(s: Seq<u8>, from: int) -> int
    decreases s.len() - from,
{
    if from < 0 || from >= s.len() {
        s.len() as int
    } else if s[from] >= OPAQUE_ALPHA {
        from
    } else {
        first_opaque(s, from + 1)
    }
}

/// Index of the first transparent value of `s` at or after `from`, or `s.len()`.
pub open spec fn first_clear(s: Seq<u8>, from: int) -> int
    decreases s.len() - from,
{
    if from < 0 || from >= s.len() {
        s.len() as int
    } else if s[from] < OPAQUE_ALPHA {
        from
    } else {
        first_clear(s, from + 1)
    }
}

/// The opaque band of a guide line whose pixel `k + 1` has alpha `s[k]`: the
/// position of its first opaque pixel and of the first transparent pixel after
/// it; `start` and `end` stand in for what is not found.
pub open spec fn guide_band(s: Seq<u8>, start: int, end: int) -> (int, int) {
    let a = first_opaque(s, 0);
    if a == s.len() {
        (start, end)
    } else {
        let b = first_clear(s, a + 1);
        if b == s.len() {
            (a + 1, end)
        } else {
            (a + 1, b + 1)
        }
    }
}

/// Alpha values of the guide row, after its corner pixel, of an RGBA image
/// `width` pixels wide.
pub open spec fn guide_row(texture: Seq<u8>, width: nat) -> Seq<u8> {
    Seq::new((width - 1) as nat, |k: int| texture[(k + 1) * 4 + 3])
}

/// Alpha values of the guide column, below its corner pixel, of an RGBA image
/// `width` pixels wide and `height` pixels high.
pub open spec fn guide_column(texture: Seq<u8>, width: nat, height: nat) -> Seq<u8> {
    Seq::new((height - 1) as nat, |k: int| texture[(k + 1) * width * 4 + 3])
}

/// The cuts that the guide pixels of an RGBA image describe. Where the guide
/// row has no opaque pixel, the horizontal cuts are both 0; where the guide
/// column has none, the top cut is the width of the sprite without its guide
/// and the bottom cut its height.
pub open spec fn cuts_spec(texture: Seq<u8>, width: nat, height: nat) -> NineSliceCuts {
    let h = guide_band(guide_row(texture, width), 0, 0);
    let v = guide_band(guide_column(texture, width, height), width - 1, height - 1);
    NineSliceCuts { left: h.0 as u32, right: h.1 as u32, top: v.0 as u32, bottom: v.1 as u32 }
}

/// Scans `len` alpha values, the `k`-th at `texture[base + (k + 1) * stride]`,
/// for the opaque band; `start` and `end` stand in for what is not found.
fn scan_band(texture: &[u8], base: usize, stride: usize, len: usize, start: u32, end: u32) -> (r: (
    u32,
    u32,
))
    requires
        base + len * stride < texture@.len(),
        len < u32::MAX,
    ensures
        ({
            let s = Seq::new(len as nat, |k: int| texture@[base + (k + 1) * stride]);
            let b = guide_band(s, start as int, end as int);
            r.0 == b.0 && r.1 == b.1
        }),
{
    let ghost s = Seq::new(len as nat, |k: int| texture@[base + (k + 1) * stride]);
    let mut found = false;
    let mut first: u32 = start;
    let mut last: u32 = end;
    let n = texture.len();
    let mut x: usize = 1;
    while x < len + 1
        invariant
            1 <= x <= len + 1,
            n == texture@.len(),
            base + len * stride < texture@.len(),
            len < u32::MAX,
            s == Seq::new(len as nat, |k: int| texture@[base + (k + 1) * stride]),
            !found ==> first_opaque(s, 0) == first_opaque(s, x - 1) && first == start && last == end,
            found ==> {
                &&& first_opaque(s, 0) == first - 1
                &&& first_opaque(s, 0) < x - 1
                &&& first_clear(s, first as int) == first_clear(s, x - 1)
                &&& last == end
            },
        decreases len + 1 - x,
    {
        proof {
            assert(x * stride <= len * stride) by (nonlinear_arith)
                requires
                    x <= len,
            ;
        }
        let alpha = texture[base + x * stride];
        proof {
            assert(s[x - 1] == alpha);
        }
        if !found && alpha >= OPAQUE_ALPHA {
            found = true;
            first = x as u32;
        } else if found && alpha < OPAQUE_ALPHA {
            last = x as u32;
            let ghost a = first_opaque(s, 0);
            proof {
                assert(first_clear(s, a + 1) == x - 1);
            }
            return (first, last);
        }
        x = x + 1;
    }
    (first, last)
}

/// Reads the nine-slice cuts of an RGBA image `width` by `height` pixels from
/// its guide row and guide column.
pub fn nine_slice_cuts(texture: &[u8], width: u32, height: u32) -> (r: NineSliceCuts)
    requires
        width >= 1,
        height >= 1,
        width * height * 4 <= texture@.len(),
    ensures
        r == cuts_spec(texture@, width as nat, height as nat),
{
    let w = width as usize;
    let h = height as usize;
    let n = texture.len();
    proof {
        assert(w * 4 <= w * h * 4) by (nonlinear_arith)
            requires
                h >= 1,
        ;
        assert(3 + (h - 1) * (w * 4) < w * h * 4) by (nonlinear_arith)
            requires
                h >= 1,
                w >= 1,
        ;
    }
    let (left, right) = scan_band(texture, 3, 4, w - 1, 0, 0);
    let (top, bottom) = scan_band(texture, 3, w * 4, h - 1, width - 1, height - 1);
    proof {
        let s1 = Seq::new((w - 1) as nat, |k: int| texture@[3 + (k + 1) * 4]);
        assert(s1 =~= guide_row(texture@, width as nat));
        let s2 = Seq::new((h - 1) as nat, |k: int| texture@[3 + (k + 1) * (w * 4)]);
        assert forall|k: int| 0 <= k < h - 1 implies s2[k] == guide_column(
            texture@,
            width as nat,
            height as nat,
        )[k] by {
            assert(3 + (k + 1) * (w * 4) == (k + 1) * w * 4 + 3) by (nonlinear_arith);
        }
        assert(s2 =~= guide_column(texture@, width as nat, height as nat));
    }
    NineSliceCuts { left, right, top, bottom }
}

} // verus!
