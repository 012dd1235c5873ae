//! Assembling atlas pages from decoded sprite images.
//!
//! Sprites are packed in the order of [`sort_by_key`], largest first. A page
//! starts at the initial size and doubles, up to the maximum size, whenever a
//! sprite does not fit; a page is closed, and the next sprites go to a new
//! page, when a sprite finds no place in it at the maximum size or when
//! growing it would not keep every sprite it holds. Each sprite gets `padding` pixels of room on
//! every side, of which up to `bleeding` repeat its edge pixels.

use bevy_platform::collections::HashMap;
use guillotiere::AtlasAllocator;
use vstd::prelude::*;

use crate::atlas::blit::{blit_sprite, blitted, pixel_offset, Placement};
use crate::atlas::nine::{cuts_spec, nine_slice_cuts, NineSliceCuts};
use crate::atlas::order::{sat_sub, sort_by_key, stable_sorted, SpriteSource};
use crate::rect::URect;
use crate::atlas::packer::{
    packer_allocate, packer_allocations, packer_clone, packer_extent, packer_fits, packer_fresh, packer_is_empty,
    packer_new, packer_rearrange, packer_rearranges, packer_rect, packer_size, packer_sound, rect_inside, rect_int, rects_disjoint,
    PackRect,
};

verus! {

/// Limits on the size of atlas pages.
#[derive(Clone, Copy, Debug, PartialEq, Eq, Structural)]
pub struct TextureAtlasSettings {
    /// The initial width of a page; it grows up to `max_width` where needed.
    pub init_width: u32,
    /// The initial height of a page; it grows up to `max_height` where needed.
    pub init_height: u32,
    /// The largest width of a page.
    pub max_width: u32,
    /// The largest height of a page.
    pub max_height: u32,
}

impl TextureAtlasSettings {
    /// Sizes with which pages can be made and grown: positive, initial sizes
    /// no larger than the maximum ones, doubling never overflowing, and a page
    /// of the maximum size addressable in bytes.
    pub open spec fn valid(self) -> bool {
        &&& 1 <= self.init_width <= self.max_width <= 0x4000_0000
        &&& 1 <= self.init_height <= self.max_height <= 0x4000_0000
        &&& self.max_width * self.max_height * 4 <= usize::MAX
    }
}

impl Default for TextureAtlasSettings {
    /// Pages start at 1024 by 1024 pixels and grow up to 4096 by 4096.
    fn default() -> (r: Self)
        ensures
            r == (TextureAtlasSettings {
                init_width: 1024,
                init_height: 1024,
                max_width: 4096,
                max_height: 4096,
            }),
    {
        TextureAtlasSettings { init_width: 1024, init_height: 1024, max_width: 4096, max_height: 4096 }
    }
}

/// Why a set of sprites could not be made into pages.
#[derive(Clone, Debug, PartialEq, Eq)]
pub enum TextureAtlasError {
    /// A sprite does not fit a page of the maximum size, or has no pixels.
    TooLarge {
        /// The sprite's lookup key.
        path: String,
        /// The largest width of a page.
        max_width: u32,
        /// The largest height of a page.
        max_height: u32,
        /// The width of the sprite's image.
        actual_width: u32,
        /// The height of the sprite's image.
        actual_height: u32,
    },
}

/// Width and height of a sprite's own pixels: its image without the guides.
pub open spec fn content_size(s: SpriteSource) -> (int, int) {
    if s.guided {
        (sat_sub(s.width as int, 1), sat_sub(s.height as int, 1))
    } else {
        (s.width as int, s.height as int)
    }
}

/// Width and height of the room a sprite takes on a page.
pub open spec fn padded_size(s: SpriteSource, pad: int) -> (int, int) {
    (content_size(s).0 + 2 * pad, content_size(s).1 + 2 * pad)
}

/// Whether a sprite, with its padding, fits a page of the maximum size.
pub open spec fn fits_page(s: SpriteSource, pad: int, settings: TextureAtlasSettings) -> bool {
    &&& 0 < padded_size(s, pad).0 <= settings.max_width
    &&& 0 < padded_size(s, pad).1 <= settings.max_height
}

/// What packing needs of a sprite: a pixel buffer that matches its size, a
/// padded size and a packing key that fit in 32 bits, and, for a sprite with
/// guides, a guide row and column to read.
pub open spec fn sprite_ok(s: SpriteSource, pad: int) -> bool {
    &&& s.wf()
    &&& (s.guided ==> s.width >= 1 && s.height >= 1)
    &&& 2 * (s.width + s.height) <= u32::MAX
    &&& content_size(s).0 + 2 * pad <= u32::MAX
    &&& content_size(s).1 + 2 * pad <= u32::MAX
}

/// What bleeding needs of a sprite: where edges bleed, pixels of its own to
/// repeat.
pub open spec fn bleeds_ok(s: SpriteSource, bleed: int) -> bool {
    bleed == 0 || (content_size(s).0 >= 1 && content_size(s).1 >= 1)
}

/// Width and height of a rectangle.
pub open spec fn rect_size(r: (int, int, int, int)) -> (int, int) {
    (r.2 - r.0, r.3 - r.1)
}

/// The sprite ids of a packer: each allocation stands for one placed sprite,
/// of its padded size, and each placed sprite has exactly one allocation.
pub open spec fn slots_match(
    p: AtlasAllocator,
    m: Map<u32, usize>,
    placed: Seq<SpriteSource>,
    pad: int,
) -> bool {
    &&& m.dom() == packer_allocations(p).dom()
    &&& forall|id: u32| #[trigger]
        m.contains_key(id) ==> m[id] < placed.len() && rect_size(packer_allocations(p)[id])
            == padded_size(placed[m[id] as int], pad)
    &&& forall|a: u32, b: u32|
        #![trigger m[a], m[b]]
        m.contains_key(a) && m.contains_key(b) && a != b ==> m[a] != m[b]
    &&& forall|i: int| 0 <= i < placed.len() ==> #[trigger] has_slot(m, i)
}

/// Some key of `m` maps to `i`.
pub open spec fn has_slot(m: Map<u32, usize>, i: int) -> bool {
    exists|id: u32| #[trigger] m.contains_key(id) && m[id] == i
}

/// The size a sprite's room is requested at from a packer: each padded side
/// as a signed 32-bit number.
pub open spec fn request_size(s: SpriteSource, pad: int) -> (int, int) {
    (((padded_size(s, pad).0 as u32) as i32) as int, ((padded_size(s, pad).1 as u32) as i32) as int)
}

/// The next side of a growing page: doubled, or the maximum once doubling
/// would reach half of it.
pub open spec fn grown_side(side: int, max: int) -> int {
    if side < max / 2 {
        side * 2
    } else {
        max
    }
}

/// Why a page was closed before the sprite `next`: its packer finds no place
/// for it, and the page either has the maximum size or, grown by one step,
/// would not hold again every sprite it holds.
pub open spec fn page_closed(
    q: AtlasAllocator,
    next: SpriteSource,
    pad: int,
    settings: TextureAtlasSettings,
) -> bool {
    let w = packer_extent(q).0;
    let h = packer_extent(q).1;
    &&& !packer_fits(q, request_size(next, pad).0, request_size(next, pad).1)
    &&& ((w == settings.max_width && h == settings.max_height) || !packer_rearranges(
        q,
        grown_side(w, settings.max_width as int),
        grown_side(h, settings.max_height as int),
    ))
}

/// A packer that a page was made from: of the page's size, with one
/// rectangle for each sprite's room and no other.
pub open spec fn page_packed_by(q: AtlasAllocator, page: AtlasPage, pad: int) -> bool {
    let a = packer_allocations(q);
    let sp = page.sprites@;
    &&& packer_extent(q) == (page.width as int, page.height as int)
    &&& forall|id: u32| #[trigger]
        a.contains_key(id) ==> exists|i: int|
            0 <= i < sp.len() && a[id] == padded_rect((#[trigger] sp[i]).rect, pad)
    &&& forall|i: int| 0 <= i < sp.len() ==> #[trigger] allocated(a, padded_rect(sp[i].rect, pad))
}

/// Some rectangle of `a` is `r`.
pub open spec fn allocated(a: Map<u32, (int, int, int, int)>, r: (int, int, int, int)) -> bool {
    exists|id: u32| #[trigger] a.contains_key(id) && a[id] == r
}

/// Which placed sprite each allocation of a page's packer stands for.
pub uninterp spec fn slot_entries(m: HashMap<u32, usize>) -> Map<u32, usize>;

/// `HashMap::new`: an empty map.
#[verifier::external_body]
fn slots_new() -> (r: HashMap<u32, usize>)
    ensures
        slot_entries(r) =~= Map::empty(),
{
    HashMap::new()
}

/// `HashMap::insert`: stores `v` under `k`, returning what was stored there.
#[verifier::external_body]
fn slots_insert(m: &mut HashMap<u32, usize>, k: u32, v: usize) -> (r: Option<usize>)
    ensures
        slot_entries(*final(m)) == slot_entries(*old(m)).insert(k, v),
        r == (if slot_entries(*old(m)).contains_key(k) {
            Some(slot_entries(*old(m))[k])
        } else {
            None
        }),
{
    m.insert(k, v)
}

/// `HashMap::remove`: takes out what is stored under `k`.
#[verifier::external_body]
fn slots_remove(m: &mut HashMap<u32, usize>, k: u32) -> (r: Option<usize>)
    ensures
        slot_entries(*final(m)) == slot_entries(*old(m)).remove(k),
        r == (if slot_entries(*old(m)).contains_key(k) {
            Some(slot_entries(*old(m))[k])
        } else {
            None
        }),
{
    m.remove(&k)
}

/// `HashMap::is_empty`: whether nothing is stored.
#[verifier::external_body]
fn slots_is_empty(m: &HashMap<u32, usize>) -> (r: bool)
    ensures
        r == slot_entries(*m).dom().is_empty(),
{
    m.is_empty()
}

/// `HashMap::into_iter`, collected: every stored pair once, in the map's own
/// order, which is not stated.
#[verifier::external_body]
fn slots_into_vec(m: HashMap<u32, usize>) -> (r: Vec<(u32, usize)>)
    ensures
        forall|i: int|
            0 <= i < r@.len() ==> #[trigger] slot_entries(m).contains_key(r@[i].0) && slot_entries(
                m,
            )[r@[i].0] == r@[i].1,
        forall|i: int, j: int|
            #![trigger r@[i], r@[j]]
            0 <= i < r@.len() && 0 <= j < r@.len() && i != j ==> r@[i].0 != r@[j].0,
        forall|k: u32| #[trigger]
            slot_entries(m).contains_key(k) ==> exists|i: int| 0 <= i < r@.len() && r@[i].0 == k,
{
    m.into_iter().collect()
}

} // verus!

verus! {

/// Moves each stored value from the old id of a change to its new id.
fn remap_slots(
    slots: HashMap<u32, usize>,
    changes: &Vec<(u32, u32, PackRect)>,
    Ghost(old_ids): Ghost<Set<u32>>,
    Ghost(new_ids): Ghost<Set<u32>>,
) -> (moved: HashMap<u32, usize>)
    requires
        slot_entries(slots).dom() == old_ids,
        forall|i: int|
            0 <= i < changes@.len() ==> old_ids.contains(#[trigger] changes@[i].0) && new_ids.contains(
                changes@[i].1,
            ),
        forall|i: int, j: int|
            #![trigger changes@[i], changes@[j]]
            0 <= i < changes@.len() && 0 <= j < changes@.len() && i != j ==> changes@[i].0
                != changes@[j].0 && changes@[i].1 != changes@[j].1,
        forall|id: u32| #[trigger]
            new_ids.contains(id) ==> exists|i: int| 0 <= i < changes@.len() && changes@[i].1 == id,
    ensures
        slot_entries(moved).dom() == new_ids,
        forall|i: int|
            0 <= i < changes@.len() ==> slot_entries(moved)[#[trigger] changes@[i].1] == slot_entries(
                slots,
            )[changes@[i].0],
{
    let ghost before = slot_entries(slots);
    let mut rest = slots;
    let mut moved = slots_new();
    let mut k: usize = 0;
    while k < changes.len()
        invariant
            k <= changes@.len(),
            before.dom() == old_ids,
            forall|i: int|
                0 <= i < changes@.len() ==> old_ids.contains(#[trigger] changes@[i].0)
                    && new_ids.contains(changes@[i].1),
            forall|i: int, j: int|
                #![trigger changes@[i], changes@[j]]
                0 <= i < changes@.len() && 0 <= j < changes@.len() && i != j ==> changes@[i].0
                    != changes@[j].0 && changes@[i].1 != changes@[j].1,
            forall|i: int| k <= i < changes@.len() ==> slot_entries(rest).contains_key(
                #[trigger] changes@[i].0,
            ),
            forall|id: u32| #[trigger]
                slot_entries(rest).contains_key(id) ==> before.contains_key(id) && slot_entries(
                    rest,
                )[id] == before[id],
            forall|id: u32| #[trigger]
                slot_entries(moved).contains_key(id) ==> exists|i: int|
                    0 <= i < k && changes@[i].1 == id,
            forall|i: int|
                0 <= i < k ==> slot_entries(moved).contains_key(#[trigger] changes@[i].1)
                    && slot_entries(moved)[changes@[i].1] == before[changes@[i].0],
        decreases changes@.len() - k,
    {
        let (from, to, _) = changes[k];
        let ghost rest_before = slot_entries(rest);
        let ghost moved_before = slot_entries(moved);
        let value = match slots_remove(&mut rest, from) {
            Some(v) => v,
            None => {
                proof {
                    assert(false);
                }
                0
            },
        };
        slots_insert(&mut moved, to, value);
        proof {
            assert forall|i: int| k + 1 <= i < changes@.len() implies slot_entries(
                rest,
            ).contains_key(#[trigger] changes@[i].0) by {
                assert(changes@[i].0 != changes@[k as int].0);
                assert(rest_before.contains_key(changes@[i].0));
            }
            assert forall|id: u32| #[trigger] slot_entries(moved).contains_key(id) implies exists|
                i: int,
            | 0 <= i < k + 1 && changes@[i].1 == id by {
                if id != to {
                    assert(moved_before.contains_key(id));
                } else {
                    assert(changes@[k as int].1 == id);
                }
            }
            assert forall|i: int| 0 <= i < k + 1 implies slot_entries(moved).contains_key(
                #[trigger] changes@[i].1,
            ) && slot_entries(moved)[changes@[i].1] == before[changes@[i].0] by {
                if i < k {
                    assert(changes@[i].1 != changes@[k as int].1);
                    assert(moved_before.contains_key(changes@[i].1));
                }
            }
        }
        k = k + 1;
    }
    proof {
        assert forall|id: u32| slot_entries(moved).contains_key(id) <==> new_ids.contains(id) by {
            if new_ids.contains(id) {
                let i = choose|i: int| 0 <= i < changes@.len() && changes@[i].1 == id;
                assert(slot_entries(moved).contains_key(changes@[i].1));
            }
            if slot_entries(moved).contains_key(id) {
                let i = choose|i: int| 0 <= i < k && changes@[i].1 == id;
                assert(new_ids.contains(changes@[i].1));
            }
        }
        assert(slot_entries(moved).dom() =~= new_ids);
    }
    moved
}

} // verus!

verus! {

/// A page being filled: its packer, which placed sprite each allocation
/// stands for, and the placed sprites in the order they were placed.
pub struct PageFill {
    /// The packer of the page.
    pub packer: AtlasAllocator,
    /// Index into `placed` of the sprite each allocation stands for.
    pub slots: HashMap<u32, usize>,
    /// The sprites on the page.
    pub placed: Vec<SpriteSource>,
}

impl PageFill {
    /// The packer's rectangles lie in a page no larger than the maximum and
    /// share no point, each stands for one placed sprite of its padded size,
    /// and at least one sprite is placed.
    pub open spec fn wf(self, pad: int, settings: TextureAtlasSettings) -> bool {
        &&& packer_sound(self.packer)
        &&& slots_match(self.packer, slot_entries(self.slots), self.placed@, pad)
        &&& 1 <= packer_extent(self.packer).0 <= settings.max_width
        &&& 1 <= packer_extent(self.packer).1 <= settings.max_height
        &&& self.placed@.len() >= 1
        &&& forall|i: int|
            0 <= i < self.placed@.len() ==> sprite_ok(#[trigger] self.placed@[i], pad) && fits_page(
                self.placed@[i],
                pad,
                settings,
            )
    }
}

/// The side, in 32 bits, requested for a padded sprite: a side beyond the
/// signed range wraps to a negative one.
proof fn lemma_request_side(side: u32)
    ensures
        side <= 0x7fff_ffff ==> side as i32 == side,
        side > 0x7fff_ffff ==> (side as i32) < 0,
{
    assert(side <= 0x7fff_ffff ==> side as i32 == side) by (bit_vector);
    assert(side > 0x7fff_ffff ==> (side as i32) < 0) by (bit_vector);
}

/// Fills a page with sprites taken from the end of `entries`, growing the
/// page where a sprite does not fit. Stops when `entries` is empty or a
/// sprite does not fit a page of the maximum size; that sprite goes back to
/// `entries`, or, if the page holds nothing, is reported as too large. Where
/// the packer, growing the page, cannot place again every sprite it held,
/// the page stays as it was before growing and the sprite goes back.
fn fill_page(entries: &mut Vec<SpriteSource>, settings: TextureAtlasSettings, pad: u32) -> (r: Result<
    PageFill,
    TextureAtlasError,
>)
    requires
        settings.valid(),
        old(entries)@.len() >= 1,
        forall|i: int| 0 <= i < old(entries)@.len() ==> sprite_ok(#[trigger] old(entries)@[i], pad as int),
    ensures
        match r {
            Ok(f) => {
                &&& f.wf(pad as int, settings)
                &&& old(entries)@ == final(entries)@ + f.placed@.reverse()
                &&& final(entries)@.len() > 0 ==> page_closed(
                    f.packer,
                    final(entries)@.last(),
                    pad as int,
                    settings,
                )
            },
            Err(TextureAtlasError::TooLarge { path, max_width, max_height, actual_width, actual_height }) => {
                &&& max_width == settings.max_width
                &&& max_height == settings.max_height
                &&& old(entries)@.last().name@ == path@
                &&& old(entries)@.last().width == actual_width
                &&& old(entries)@.last().height == actual_height
                &&& !fits_page(old(entries)@.last(), pad as int, settings)
            },
        },
{
    let ghost start = entries@;
    let mut packer = packer_new(settings.init_width as i32, settings.init_height as i32);
    let mut slots = slots_new();
    let mut placed: Vec<SpriteSource> = Vec::new();
    proof {
        assert(slot_entries(slots).dom() =~= packer_allocations(packer).dom());
        assert(placed@.reverse() =~= Seq::<SpriteSource>::empty());
        assert(start =~= entries@ + placed@.reverse());
    }
    while entries.len() > 0
        invariant
            settings.valid(),
            start == entries@ + placed@.reverse(),
            forall|i: int| 0 <= i < start.len() ==> sprite_ok(#[trigger] start[i], pad as int),
            packer_sound(packer),
            slots_match(packer, slot_entries(slots), placed@, pad as int),
            forall|i: int|
                0 <= i < placed@.len() ==> sprite_ok(#[trigger] placed@[i], pad as int) && fits_page(
                    placed@[i],
                    pad as int,
                    settings,
                ),
            start == old(entries)@,
            packer_allocations(packer).dom().is_empty() ==> packer_fresh(packer),
            1 <= packer_extent(packer).0 <= settings.max_width,
            1 <= packer_extent(packer).1 <= settings.max_height,
        decreases entries@.len(), (settings.max_width - packer_extent(packer).0) + (
            settings.max_height - packer_extent(packer).1),
    {
        let ghost before = entries@;
        let x = entries.pop().unwrap();
        proof {
            assert(before == entries@.push(x));
            assert(x == start[entries@.len() as int]);
        }
        let (bw, bh) = if x.guided {
            (x.width.saturating_sub(1), x.height.saturating_sub(1))
        } else {
            (x.width, x.height)
        };
        let pw = bw + 2 * pad;
        let ph = bh + 2 * pad;
        proof {
            lemma_request_side(pw);
            lemma_request_side(ph);
        }
        let ghost packer_before = packer;
        match packer_allocate(&mut packer, pw as i32, ph as i32) {
            Some((id, rect)) => {
                let ghost m0 = slot_entries(slots);
                slots_insert(&mut slots, id, placed.len());
                let ghost placed_before = placed@;
                placed.push(x);
                proof {
                    let a = packer_allocations(packer);
                    let m = slot_entries(slots);
                    assert(m.dom() =~= a.dom());
                    assert forall|k: u32| #[trigger] a.contains_key(k) implies rect_inside(
                        a[k],
                        packer_extent(packer).0,
                        packer_extent(packer).1,
                    ) by {
                        if k != id {
                            assert(packer_allocations(packer_before).contains_key(k));
                        }
                    }
                    assert forall|i: u32, j: u32|
                        a.contains_key(i) && a.contains_key(j) && i != j implies #[trigger] rects_disjoint(
                        a[i],
                        a[j],
                    ) by {
                        if i == id {
                            assert(packer_allocations(packer_before).contains_key(j));
                        } else if j == id {
                            assert(packer_allocations(packer_before).contains_key(i));
                        } else {
                            assert(packer_allocations(packer_before)[i] == a[i]);
                        }
                    }
                    assert forall|k: u32| #[trigger] m.contains_key(k) implies m[k] < placed@.len()
                        && rect_size(a[k]) == padded_size(placed@[m[k] as int], pad as int) by {
                        if k != id {
                            assert(m0.contains_key(k));
                            assert(placed@[m[k] as int] == placed_before[m0[k] as int]);
                        }
                    }
                    assert forall|i: u32, j: u32|
                        #![trigger m[i], m[j]]
                        m.contains_key(i) && m.contains_key(j) && i != j implies m[i] != m[j] by {
                        if i != id && j != id {
                            assert(m0[i] != m0[j]);
                        } else if i == id {
                            assert(m0.contains_key(j));
                        } else {
                            assert(m0.contains_key(i));
                        }
                    }
                    assert forall|i: int| 0 <= i < placed@.len() implies #[trigger] has_slot(m, i) by {
                        if i == placed@.len() - 1 {
                            assert(m.contains_key(id) && m[id] == i);
                        } else {
                            assert(has_slot(m0, i));
                            let k = choose|k: u32| #[trigger] m0.contains_key(k) && m0[k] == i;
                            assert(m.contains_key(k) && m[k] == i);
                        }
                    }
                    assert(packer_allocations(packer).dom().finite());
                    assert(fits_page(x, pad as int, settings)) by {
                        assert(pw <= 0x7fff_ffff);
                        assert(ph <= 0x7fff_ffff);
                    }
                    assert forall|i: int| 0 <= i < placed@.len() implies sprite_ok(
                        #[trigger] placed@[i],
                        pad as int,
                    ) && fits_page(placed@[i], pad as int, settings) by {
                        if i < placed@.len() - 1 {
                            assert(placed@[i] == placed_before[i]);
                        } else {
                            assert(start[entries@.len() as int] == x);
                        }
                    }
                    assert(placed@.reverse() =~= seq![x] + placed_before.reverse());
                    assert(start =~= entries@ + placed@.reverse());
                }
            },
            None => {
                let (w, h) = packer_size(&packer);
                if w == settings.max_width as i32 && h == settings.max_height as i32 {
                    if packer_is_empty(&packer) {
                        proof {
                            assert(!fits_page(x, pad as int, settings));
                            if placed@.len() > 0 {
                                assert(has_slot(slot_entries(slots), 0));
                                let k = choose|k: u32| #[trigger] slot_entries(slots).contains_key(k) && slot_entries(slots)[k] == 0;
                                assert(packer_allocations(packer).contains_key(k));
                            }
                            assert(placed@.reverse() =~= Seq::<SpriteSource>::empty());
                            assert(old(entries)@[entries@.len() as int] == x);
                        }
                        return Err(
                            TextureAtlasError::TooLarge {
                                path: x.name,
                                max_width: settings.max_width,
                                max_height: settings.max_height,
                                actual_width: x.width,
                                actual_height: x.height,
                            },
                        );
                    }
                    entries.push(x);
                    proof {
                        assert(entries@ =~= before);
                        assert(request_size(x, pad as int) == (pw as i32 as int, ph as i32 as int));
                        assert(page_closed(packer, x, pad as int, settings));
                        assert(!packer_allocations(packer).dom().is_empty());
                        let id = packer_allocations(packer).dom().choose();
                        assert(slot_entries(slots).contains_key(id));
                    }
                    return Ok(PageFill { packer, slots, placed });
                }
                let nw = if w < settings.max_width as i32 / 2 {
                    w * 2
                } else {
                    settings.max_width as i32
                };
                let nh = if h < settings.max_height as i32 / 2 {
                    h * 2
                } else {
                    settings.max_height as i32
                };
                let ghost grown_from = packer;
                let kept = packer_clone(&packer);
                let (changes, failures) = packer_rearrange(&mut packer, nw, nh);
                if failures.len() > 0 {
                    entries.push(x);
                    proof {
                        assert(entries@ =~= before);
                        assert(request_size(x, pad as int) == (pw as i32 as int, ph as i32 as int));
                        assert(!packer_fits(kept, pw as i32 as int, ph as i32 as int));
                        assert(nw as int == grown_side(w as int, settings.max_width as int));
                        assert(nh as int == grown_side(h as int, settings.max_height as int));
                        assert(!packer_rearranges(kept, nw as int, nh as int));
                        assert(page_closed(kept, x, pad as int, settings));
                        let id = failures@[0];
                        assert(packer_allocations(grown_from).contains_key(id));
                        assert(packer_allocations(kept).contains_key(id));
                        assert(slot_entries(slots).contains_key(id));
                    }
                    return Ok(PageFill { packer: kept, slots, placed });
                }
                proof {
                    assert forall|id: u32| #[trigger]
                        packer_allocations(grown_from).contains_key(id) implies exists|i: int|
                        0 <= i < changes@.len() && changes@[i].0 == id by {
                        if !(exists|i: int| 0 <= i < changes@.len() && changes@[i].0 == id) {
                            assert(failures@.contains(id));
                        }
                    }
                }
                let ghost m0 = slot_entries(slots);
                slots = remap_slots(
                    slots,
                    &changes,
                    Ghost(packer_allocations(grown_from).dom()),
                    Ghost(packer_allocations(packer).dom()),
                );
                entries.push(x);
                proof {
                    assert(entries@ =~= before);
                    let a0 = packer_allocations(grown_from);
                    let a = packer_allocations(packer);
                    let m = slot_entries(slots);
                    assert forall|k: u32| #[trigger] m.contains_key(k) implies m[k] < placed@.len()
                        && rect_size(a[k]) == padded_size(placed@[m[k] as int], pad as int) by {
                        let i = choose|i: int| 0 <= i < changes@.len() && changes@[i].1 == k;
                        assert(m[changes@[i].1] == m0[changes@[i].0]);
                        assert(a0.contains_key(changes@[i].0));
                    }
                    assert forall|i: u32, j: u32|
                        #![trigger m[i], m[j]]
                        m.contains_key(i) && m.contains_key(j) && i != j implies m[i] != m[j] by {
                        let ci = choose|c: int| 0 <= c < changes@.len() && changes@[c].1 == i;
                        let cj = choose|c: int| 0 <= c < changes@.len() && changes@[c].1 == j;
                        assert(m[changes@[ci].1] == m0[changes@[ci].0]);
                        assert(m[changes@[cj].1] == m0[changes@[cj].0]);
                        assert(changes@[ci].0 != changes@[cj].0);
                        assert(m0.contains_key(changes@[ci].0));
                        assert(m0.contains_key(changes@[cj].0));
                    }
                    assert forall|i: int| 0 <= i < placed@.len() implies #[trigger] has_slot(m, i) by {
                        assert(has_slot(m0, i));
                        let k0 = choose|k: u32| #[trigger] m0.contains_key(k) && m0[k] == i;
                        assert(a0.contains_key(k0));
                        let c = choose|c: int| 0 <= c < changes@.len() && changes@[c].0 == k0;
                        assert(m[changes@[c].1] == m0[changes@[c].0]);
                        assert(m.contains_key(changes@[c].1));
                    }
                }
            },
        }
    }
    proof {
        assert(start =~= placed@.reverse());
        assert(placed@.len() == start.len());
    }
    Ok(PageFill { packer, slots, placed })
}

} // verus!

verus! {

/// A sprite on an atlas page.
#[derive(Debug)]
pub struct PackedSprite {
    /// The sprite's lookup key.
    pub name: String,
    /// Where the sprite's pixels lie on the page.
    pub rect: URect,
    /// The nine-slice cuts, for a sprite with guides.
    pub nine_slices: Option<NineSliceCuts>,
}

/// An atlas page: an RGBA image and the sprites on it, in layout order.
#[derive(Debug)]
pub struct AtlasPage {
    /// Width in pixels.
    pub width: u32,
    /// Height in pixels.
    pub height: u32,
    /// The pixels, four bytes each, row after row.
    pub pixels: Vec<u8>,
    /// The sprites; a sprite's index here is its index in the page layout.
    pub sprites: Vec<PackedSprite>,
}

/// How a sprite lying at `r` is copied with `bleed` pixels of bleeding.
pub open spec fn rect_placement(s: SpriteSource, r: URect, bleed: int) -> Placement {
    Placement {
        x: r.min_x as usize,
        y: r.min_y as usize,
        width: (r.max_x - r.min_x) as usize,
        height: (r.max_y - r.min_y) as usize,
        guided: s.guided,
        bleed: bleed as usize,
    }
}

/// A sprite's room on the page: its rectangle grown by the padding.
pub open spec fn padded_rect(r: URect, pad: int) -> (int, int, int, int) {
    (r.min_x - pad, r.min_y - pad, r.max_x + pad, r.max_y + pad)
}

/// What a page holds of its sprites: each one's key, size and cuts; rooms
/// that lie in the page and share no point; and pixels that show, around each
/// sprite, its nearest pixels and, away from every sprite, nothing.
#[verifier::opaque]
pub open spec fn page_shows(page: AtlasPage, sources: Seq<SpriteSource>, pad: int, bleed: int) -> bool {
    let w = page.width as int;
    let h = page.height as int;
    let sp = page.sprites@;
    &&& page.pixels@.len() == w * h * 4
    &&& sp.len() == sources.len()
    &&& forall|i: int|
        0 <= i < sp.len() ==> {
            &&& (#[trigger] sp[i]).name@ == sources[i].name@
            &&& sp[i].rect.max_x - sp[i].rect.min_x == content_size(sources[i]).0
            &&& sp[i].rect.max_y - sp[i].rect.min_y == content_size(sources[i]).1
            &&& rect_inside(padded_rect(sp[i].rect, pad), w, h)
            &&& sp[i].nine_slices == (if sources[i].guided {
                Some(cuts_spec(sources[i].pixels@, sources[i].width as nat, sources[i].height as nat))
            } else {
                None
            })
        }
    &&& forall|i: int, j: int|
        #![trigger sp[i], sp[j]]
        0 <= i < sp.len() && 0 <= j < sp.len() && i != j ==> rects_disjoint(
            padded_rect(sp[i].rect, pad),
            padded_rect(sp[j].rect, pad),
        )
    &&& forall|i: int, px: int, py: int, c: int|
        0 <= i < sp.len() && 0 <= px < w && 0 <= py < h && 0 <= c < 4 && rect_placement(
            sources[i],
            sp[i].rect,
            bleed,
        ).covers(px, py) ==> #[trigger] page.pixels@[pixel_offset(w, px, py) + c] == sources[i].pixels@[(#[trigger] rect_placement(
            sources[i],
            sp[i].rect,
            bleed,
        )).source_offset(px, py) + c]
    &&& forall|px: int, py: int, c: int|
        0 <= px < w && 0 <= py < h && 0 <= c < 4 && (forall|i: int|
            0 <= i < sp.len() ==> !(#[trigger] rect_placement(sources[i], sp[i].rect, bleed)).covers(
                px,
                py,
            )) ==> #[trigger] page.pixels@[pixel_offset(w, px, py) + c] == 0
}

} // verus!

verus! {

/// Finds, for each placed sprite, the rectangle of the allocation that stands
/// for it.
fn placed_rects(packer: &AtlasAllocator, slots: HashMap<u32, usize>, n: usize) -> (r: (
    Vec<PackRect>,
    Ghost<Seq<u32>>,
))
    requires
        forall|id: u32| #[trigger]
            slot_entries(slots).contains_key(id) ==> slot_entries(slots)[id] < n
                && packer_allocations(*packer).contains_key(id),
        forall|a: u32, b: u32|
            #![trigger slot_entries(slots)[a], slot_entries(slots)[b]]
            slot_entries(slots).contains_key(a) && slot_entries(slots).contains_key(b) && a != b
                ==> slot_entries(slots)[a] != slot_entries(slots)[b],
        forall|i: int| 0 <= i < n ==> #[trigger] has_slot(slot_entries(slots), i),
    ensures
        r.0@.len() == n,
        r.1@.len() == n,
        forall|i: int|
            0 <= i < n ==> slot_entries(slots).contains_key(#[trigger] r.1@[i]) && slot_entries(
                slots,
            )[r.1@[i]] == i && rect_int(r.0@[i]) == packer_allocations(*packer)[r.1@[i]],
{
    let ghost m = slot_entries(slots);
    let pairs = slots_into_vec(slots);
    proof {
        assert forall|j: int| 0 <= j < pairs@.len() implies #[trigger] m.contains_key(pairs@[j].0)
            && m[pairs@[j].0] == pairs@[j].1 by {
            assert(slot_entries(slots).contains_key(pairs@[j].0));
        }
    }
    let mut rects: Vec<PackRect> = Vec::new();
    let mut i: usize = 0;
    while i < n
        invariant
            i <= n,
            rects@.len() == i,
        decreases n - i,
    {
        rects.push((0, 0, 0, 0));
        i = i + 1;
    }
    let ghost mut owner: Seq<u32> = Seq::new(n as nat, |i: int| 0u32);
    let mut k: usize = 0;
    while k < pairs.len()
        invariant
            k <= pairs@.len(),
            rects@.len() == n,
            owner.len() == n,
            forall|id: u32| #[trigger]
                m.contains_key(id) ==> m[id] < n && packer_allocations(*packer).contains_key(id),
            forall|a: u32, b: u32|
                #![trigger m[a], m[b]]
                m.contains_key(a) && m.contains_key(b) && a != b ==> m[a] != m[b],
            forall|j: int|
                0 <= j < pairs@.len() ==> #[trigger] m.contains_key(pairs@[j].0) && m[pairs@[j].0]
                    == pairs@[j].1,
            forall|a: int, b: int|
                #![trigger pairs@[a], pairs@[b]]
                0 <= a < pairs@.len() && 0 <= b < pairs@.len() && a != b ==> pairs@[a].0
                    != pairs@[b].0,
            forall|j: int|
                0 <= j < k ==> owner[(#[trigger] pairs@[j]).1 as int] == pairs@[j].0 && rect_int(
                    rects@[pairs@[j].1 as int],
                ) == packer_allocations(*packer)[pairs@[j].0],
        decreases pairs@.len() - k,
    {
        let (id, idx) = pairs[k];
        proof {
            assert(m.contains_key(pairs@[k as int].0));
        }
        let rect = packer_rect(packer, id);
        rects.set(idx, rect);
        proof {
            let old_owner = owner;
            owner = owner.update(idx as int, id);
            assert forall|j: int| 0 <= j < k + 1 implies owner[(#[trigger] pairs@[j]).1 as int]
                == pairs@[j].0 && rect_int(rects@[pairs@[j].1 as int]) == packer_allocations(
                *packer,
            )[pairs@[j].0] by {
                if j < k {
                    assert(m.contains_key(pairs@[j].0));
                    assert(m.contains_key(pairs@[k as int].0));
                    assert(pairs@[j].0 != pairs@[k as int].0);
                    assert(m[pairs@[j].0] != m[pairs@[k as int].0]);
                    assert(pairs@[j].1 != idx);
                    assert(old_owner[pairs@[j].1 as int] == pairs@[j].0);
                }
            }
        }
        k = k + 1;
    }
    proof {
        assert forall|i: int| 0 <= i < n implies m.contains_key(#[trigger] owner[i]) && m[owner[i]]
            == i && rect_int(rects@[i]) == packer_allocations(*packer)[owner[i]] by {
            assert(has_slot(m, i));
            let id = choose|id: u32| #[trigger] m.contains_key(id) && m[id] == i;
            let j = choose|j: int| 0 <= j < pairs@.len() && pairs@[j].0 == id;
            assert(pairs@[j].1 == i);
        }
    }
    (rects, Ghost(owner))
}

} // verus!

verus! {

/// Makes the page of a filled packer: a transparent image of the packer's
/// size with each placed sprite copied into its room, and the sprites in the
/// order they were placed.
fn render_page(fill: PageFill, pad: u32, bleed: u32, Ghost(settings): Ghost<TextureAtlasSettings>) -> (page: AtlasPage)
    requires
        settings.valid(),
        fill.wf(pad as int, settings),
        bleed <= pad,
        forall|j: int| 0 <= j < fill.placed@.len() ==> bleeds_ok(#[trigger] fill.placed@[j], bleed as int),
    ensures
        page_shows(page, fill.placed@, pad as int, bleed as int),
        page.sprites@.len() == fill.placed@.len(),
        page_packed_by(fill.packer, page, pad as int),
        1 <= page.width <= settings.max_width,
        1 <= page.height <= settings.max_height,
{
    let PageFill { packer, slots, placed } = fill;
    let ghost a = packer_allocations(packer);
    let ghost m = slot_entries(slots);
    let n = placed.len();
    let (rects, Ghost(owner)) = placed_rects(&packer, slots, n);
    let (w, h) = packer_size(&packer);
    let width = w as usize;
    let height = h as usize;
    proof {
        assert(width * height * 4 <= settings.max_width * settings.max_height * 4) by (nonlinear_arith)
            requires
                width <= settings.max_width,
                height <= settings.max_height,
        ;
    }
    let mut pixels: Vec<u8> = vec![0u8; width * height * 4];
    proof {
        assert forall|k: int| 0 <= k < pixels@.len() implies pixels@[k] == 0 by {
            assert(vstd::pervasive::cloned(0u8, pixels@[k]));
        }
        assert forall|px: int, py: int, c: int|
            0 <= px < width && 0 <= py < height && 0 <= c < 4 implies #[trigger] pixels@[pixel_offset(
            width as int,
            px,
            py,
        ) + c] == 0 by {
            assert(0 <= pixel_offset(width as int, px, py) + c < width * height * 4) by (nonlinear_arith)
                requires
                    0 <= px < width,
                    0 <= py < height,
                    0 <= c < 4,
            ;
        }
    }
    let mut sprites: Vec<PackedSprite> = Vec::new();
    let mut i: usize = 0;
    while i < n
        invariant
            n == placed@.len(),
            i <= n,
            settings.valid(),
            bleed <= pad,
            packer_sound(packer),
            a == packer_allocations(packer),
            width == packer_extent(packer).0,
            height == packer_extent(packer).1,
            1 <= width <= settings.max_width,
            1 <= height <= settings.max_height,
            slots_match(packer, m, placed@, pad as int),
            rects@.len() == n,
            owner.len() == n,
            forall|j: int|
                0 <= j < n ==> m.contains_key(#[trigger] owner[j]) && m[owner[j]] == j && rect_int(
                    rects@[j],
                ) == a[owner[j]],
            forall|j: int|
                0 <= j < n ==> sprite_ok(#[trigger] placed@[j], pad as int) && fits_page(
                    placed@[j],
                    pad as int,
                    settings,
                ),
            forall|j: int| 0 <= j < n ==> bleeds_ok(#[trigger] placed@[j], bleed as int),
            pixels@.len() == width * height * 4,
            sprites@.len() == i,
            forall|j: int|
                0 <= j < i ==> {
                    &&& (#[trigger] sprites@[j]).name@ == placed@[j].name@
                    &&& padded_rect(sprites@[j].rect, pad as int) == a[owner[j]]
                    &&& sprites@[j].rect.min_x <= sprites@[j].rect.max_x
                    &&& sprites@[j].rect.min_y <= sprites@[j].rect.max_y
                    &&& sprites@[j].rect.max_x - sprites@[j].rect.min_x == content_size(placed@[j]).0
                    &&& sprites@[j].rect.max_y - sprites@[j].rect.min_y == content_size(placed@[j]).1
                    &&& sprites@[j].nine_slices == (if placed@[j].guided {
                        Some(
                            cuts_spec(
                                placed@[j].pixels@,
                                placed@[j].width as nat,
                                placed@[j].height as nat,
                            ),
                        )
                    } else {
                        None
                    })
                },
            forall|j: int, px: int, py: int, c: int|
                0 <= j < i && 0 <= px < width && 0 <= py < height && 0 <= c < 4 && rect_placement(
                    placed@[j],
                    sprites@[j].rect,
                    bleed as int,
                ).covers(px, py) ==> #[trigger] pixels@[pixel_offset(width as int, px, py) + c]
                    == placed@[j].pixels@[(#[trigger] rect_placement(
                    placed@[j],
                    sprites@[j].rect,
                    bleed as int,
                )).source_offset(px, py) + c],
            forall|px: int, py: int, c: int|
                0 <= px < width && 0 <= py < height && 0 <= c < 4 && (forall|j: int|
                    0 <= j < i ==> !(#[trigger] rect_placement(
                        placed@[j],
                        sprites@[j].rect,
                        bleed as int,
                    )).covers(px, py)) ==> #[trigger] pixels@[pixel_offset(width as int, px, py) + c]
                    == 0,
        decreases n - i,
    {
        let s = &placed[i];
        let r = rects[i];
        proof {
            assert(m.contains_key(owner[i as int]));
            assert(a.contains_key(owner[i as int]));
            assert(sprite_ok(placed@[i as int], pad as int));
        }
        let rect = URect {
            min_x: r.0 as u32 + pad,
            min_y: r.1 as u32 + pad,
            max_x: r.2 as u32 - pad,
            max_y: r.3 as u32 - pad,
        };
        let p = Placement {
            x: rect.min_x as usize,
            y: rect.min_y as usize,
            width: (rect.max_x - rect.min_x) as usize,
            height: (rect.max_y - rect.min_y) as usize,
            guided: s.guided,
            bleed: bleed as usize,
        };
        let ghost before = pixels@;
        if p.width > 0 && p.height > 0 {
            blit_sprite(&mut pixels, width, height, p, s.pixels.as_slice());
        } else {
            proof {
                assert(bleeds_ok(placed@[i as int], bleed as int));
                assert(bleed == 0);
            }
        }
        let nine_slices = if s.guided {
            Some(nine_slice_cuts(s.pixels.as_slice(), s.width, s.height))
        } else {
            None
        };
        let ghost sprites_before = sprites@;
        sprites.push(PackedSprite { name: s.name.clone(), rect, nine_slices });
        proof {
            assert(p == rect_placement(placed@[i as int], rect, bleed as int));
            assert forall|j: int| 0 <= j < i implies sprites@[j] == sprites_before[j] by {}
            assert forall|px: int, py: int, c: int|
                0 <= px < width && 0 <= py < height && 0 <= c < 4 && (forall|j: int|
                    0 <= j < i + 1 ==> !(#[trigger] rect_placement(
                        placed@[j],
                        sprites@[j].rect,
                        bleed as int,
                    )).covers(px, py)) implies #[trigger] pixels@[pixel_offset(width as int, px, py)
                + c] == 0 by {
                assert(!rect_placement(placed@[i as int], sprites@[i as int].rect, bleed as int).covers(px, py));
                assert forall|j: int| 0 <= j < i implies !(#[trigger] rect_placement(
                    placed@[j],
                    sprites_before[j].rect,
                    bleed as int,
                )).covers(px, py) by {
                    assert(sprites@[j] == sprites_before[j]);
                    assert(!rect_placement(placed@[j], sprites@[j].rect, bleed as int).covers(px, py));
                }
                assert(before[pixel_offset(width as int, px, py) + c] == 0);
            }
        }
        i = i + 1;
    }
    let page = AtlasPage { width: w as u32, height: h as u32, pixels, sprites };
    proof {
        reveal(page_shows);
        assert(packer == fill.packer);
        lemma_packed_by(packer, page, pad as int, m, owner);
    }
    page
}

/// A page whose sprites' rooms are, one for one, the rectangles of a packer
/// of its size was made from that packer.
proof fn lemma_packed_by(q: AtlasAllocator, page: AtlasPage, pad: int, m: Map<u32, usize>, owner: Seq<u32>)
    requires
        packer_extent(q) == (page.width as int, page.height as int),
        m.dom() == packer_allocations(q).dom(),
        forall|id: u32| #[trigger] m.contains_key(id) ==> m[id] < page.sprites@.len(),
        forall|a: u32, b: u32|
            #![trigger m[a], m[b]]
            m.contains_key(a) && m.contains_key(b) && a != b ==> m[a] != m[b],
        owner.len() == page.sprites@.len(),
        forall|j: int|
            0 <= j < owner.len() ==> m.contains_key(#[trigger] owner[j]) && m[owner[j]] == j
                && padded_rect(page.sprites@[j].rect, pad) == packer_allocations(q)[owner[j]],
    ensures
        page_packed_by(q, page, pad),
{
    let a = packer_allocations(q);
    let sp = page.sprites@;
    assert forall|id: u32| #[trigger] a.contains_key(id) implies exists|j: int|
        0 <= j < sp.len() && a[id] == padded_rect((#[trigger] sp[j]).rect, pad) by {
        assert(m.contains_key(id));
        let j = m[id] as int;
        assert(m.contains_key(owner[j]) && m[owner[j]] == j);
        assert(owner[j] == id);
        assert(a[id] == padded_rect(sp[j].rect, pad));
    }
    assert forall|j: int| 0 <= j < sp.len() implies #[trigger] allocated(a, padded_rect(sp[j].rect, pad)) by {
        assert(m.contains_key(owner[j]));
        assert(a.contains_key(owner[j]));
    }
}

} // verus!

verus! {

/// How many sprites the first `k` pages hold.
pub open spec fn sprites_before(pages: Seq<AtlasPage>, k: int) -> int
    decreases k,
{
    if k <= 0 {
        0
    } else {
        sprites_before(pages, k - 1) + pages[k - 1].sprites@.len()
    }
}

/// The order in which sprites are packed: largest key first, and among equal
/// keys the one given last first.
pub open spec fn packing_order(sprites: Seq<SpriteSource>) -> Seq<SpriteSource> {
    stable_sorted(sprites).reverse()
}

/// A page was closed before the sprite `next`: it was made from a packer
/// that had no place for `next` and either had the maximum size or, grown by
/// one step, would not have held again every sprite it held.
pub open spec fn closed_before(page: AtlasPage, next: SpriteSource, pad: int, settings: TextureAtlasSettings) -> bool {
    exists|q: AtlasAllocator| #[trigger] page_packed_by(q, page, pad) && page_closed(q, next, pad, settings)
}

/// A sprite of a sorted sequence is one of the given sprites.
proof fn lemma_sorted_member(s: Seq<SpriteSource>, i: int) -> (j: int)
    requires
        0 <= i < stable_sorted(s).len(),
    ensures
        0 <= j < s.len(),
        s[j] == stable_sorted(s)[i],
{
    crate::atlas::order::lemma_stable_sorted(s);
    let x = stable_sorted(s)[i];
    assert(stable_sorted(s).contains(x));
    vstd::seq_lib::to_multiset_contains(stable_sorted(s), x);
    vstd::seq_lib::to_multiset_contains(s, x);
    s.lemma_contains_to_index(x)
}

/// Packs decoded sprites into atlas pages.
///
/// Sprites are taken in [`packing_order`]; each page is filled as far as it
/// goes, growing from the initial size up to the maximum one: a page is closed
/// only before a sprite that its packer has no place for, once the page has
/// the maximum size or growing it would not keep every sprite it holds. No
/// page is empty, and there is none where there are no sprites. Each sprite gets
/// `padding` pixels of room on every side, of which `min(bleeding, padding)`
/// repeat its edge pixels. A sprite that does not fit a page of the maximum
/// size is reported.
pub fn build_pages(
    sprites: Vec<SpriteSource>,
    settings: TextureAtlasSettings,
    padding: u32,
    bleeding: u32,
) -> (r: Result<Vec<AtlasPage>, TextureAtlasError>)
    requires
        settings.valid(),
        forall|i: int| 0 <= i < sprites@.len() ==> sprite_ok(#[trigger] sprites@[i], padding as int),
        forall|i: int|
            0 <= i < sprites@.len() ==> bleeds_ok(
                #[trigger] sprites@[i],
                if bleeding < padding {
                    bleeding as int
                } else {
                    padding as int
                },
            ),
    ensures
        match r {
            Ok(pages) => {
                let order = packing_order(sprites@);
                let bleed = if bleeding < padding {
                    bleeding
                } else {
                    padding
                };
                &&& sprites_before(pages@, pages@.len() as int) == order.len()
                &&& (pages@.len() == 0 <==> sprites@.len() == 0)
                &&& forall|k: int|
                    0 <= k < pages@.len() ==> {
                        &&& page_shows(
                            #[trigger] pages@[k],
                            order.subrange(sprites_before(pages@, k), sprites_before(pages@, k + 1)),
                            padding as int,
                            bleed as int,
                        )
                        &&& 1 <= pages@[k].width <= settings.max_width
                        &&& 1 <= pages@[k].height <= settings.max_height
                        &&& pages@[k].sprites@.len() >= 1
                    }
                &&& forall|k: int|
                    0 <= k < pages@.len() - 1 ==> closed_before(
                        #[trigger] pages@[k],
                        order[sprites_before(pages@, k + 1)],
                        padding as int,
                        settings,
                    )
                &&& forall|i: int|
                    0 <= i < sprites@.len() ==> fits_page(#[trigger] sprites@[i], padding as int, settings)
            },
            Err(TextureAtlasError::TooLarge { path, max_width, max_height, actual_width, actual_height }) => {
                let order = packing_order(sprites@);
                &&& max_width == settings.max_width
                &&& max_height == settings.max_height
                &&& exists|i: int|
                    0 <= i < order.len() && (#[trigger] order[i]).name@ == path@ && order[i].width == actual_width
                        && order[i].height == actual_height && !fits_page(order[i], padding as int, settings)
                        && forall|j: int| 0 <= j < i ==> fits_page(#[trigger] order[j], padding as int, settings)
            },
        },
        (forall|i: int| 0 <= i < sprites@.len() ==> fits_page(#[trigger] sprites@[i], padding as int, settings))
            ==> r is Ok,
{
    let ghost input = sprites@;
    let bleed = if bleeding < padding {
        bleeding
    } else {
        padding
    };
    proof {
        crate::atlas::order::lemma_stable_sorted(input);
        assert forall|i: int| 0 <= i < input.len() implies crate::atlas::order::key_fits(
            #[trigger] input[i],
        ) by {
            assert(sprite_ok(input[i], padding as int));
        }
    }
    let mut entries = sort_by_key(sprites);
    let ghost sorted = entries@;
    proof {
        assert forall|i: int| 0 <= i < sorted.len() implies sprite_ok(#[trigger] sorted[i], padding as int)
            && bleeds_ok(sorted[i], bleed as int) by {
            let j = lemma_sorted_member(input, i);
        }
    }
    let mut pages: Vec<AtlasPage> = Vec::new();
    let ghost mut done: Seq<SpriteSource> = Seq::empty();
    proof {
        assert(done.reverse() =~= Seq::<SpriteSource>::empty());
        assert(sorted =~= entries@ + done.reverse());
    }
    while entries.len() > 0
        invariant
            settings.valid(),
            bleed == (if bleeding < padding {
                bleeding
            } else {
                padding
            }),
            sorted == stable_sorted(input),
            input == sprites@,
            sorted == entries@ + done.reverse(),
            forall|i: int| 0 <= i < sorted.len() ==> sprite_ok(#[trigger] sorted[i], padding as int),
            forall|i: int| 0 <= i < sorted.len() ==> bleeds_ok(#[trigger] sorted[i], bleed as int),
            forall|i: int| 0 <= i < done.len() ==> fits_page(#[trigger] done[i], padding as int, settings),
            sprites_before(pages@, pages@.len() as int) == done.len(),
            forall|k: int|
                0 <= k < pages@.len() ==> {
                    &&& page_shows(
                        #[trigger] pages@[k],
                        done.subrange(sprites_before(pages@, k), sprites_before(pages@, k + 1)),
                        padding as int,
                        bleed as int,
                    )
                    &&& 1 <= pages@[k].width <= settings.max_width
                    &&& 1 <= pages@[k].height <= settings.max_height
                },
            forall|k: int| 0 <= k < pages@.len() ==> (#[trigger] pages@[k]).sprites@.len() >= 1,
            (pages@.len() == 0) == (done.len() == 0),
            forall|k: int|
                0 <= k < pages@.len() && sprites_before(pages@, k + 1) < sorted.len() ==> closed_before(
                    #[trigger] pages@[k],
                    sorted.reverse()[sprites_before(pages@, k + 1)],
                    padding as int,
                    settings,
                ),
        decreases entries@.len(),
    {
        let ghost before = entries@;
        proof {
            assert forall|i: int| 0 <= i < before.len() implies sprite_ok(#[trigger] before[i], padding as int) by {
                assert(before[i] == sorted[i]);
            }
        }
        match fill_page(&mut entries, settings, padding) {
            Ok(fill) => {
                let ghost placed = fill.placed@;
                let ghost pages_before = pages@;
                proof {
                    assert forall|j: int| 0 <= j < placed.len() implies bleeds_ok(#[trigger] placed[j], bleed as int) by {
                        let k = entries@.len() + (placed.len() - 1 - j);
                        assert(placed.reverse()[placed.len() - 1 - j] == placed[j]);
                        assert(before[k] == placed[j]);
                        assert(before[k] == sorted[k]);
                    }
                }
                let ghost q = fill.packer;
                let ghost rest = entries@;
                let page = render_page(fill, padding, bleed, Ghost(settings));
                pages.push(page);
                proof {
                    let done_before = done;
                    done = done + placed;
                    assert(pages@ =~= pages_before.push(page));
                    assert(done.reverse() =~= placed.reverse() + done_before.reverse());
                    assert(sorted =~= entries@ + done.reverse());
                    lemma_pages_closed(pages_before, page, q, sorted, rest, done_before, placed, padding as int, settings);
                    lemma_pages_extend(pages_before, page, done_before, placed, padding as int, bleed as int, settings);
                    assert(pages@ =~= pages_before.push(page));
                    assert forall|k: int| 0 <= k < pages@.len() implies (#[trigger] pages@[k]).sprites@.len() >= 1 by {
                        if k < pages_before.len() {
                            assert(pages@[k] == pages_before[k]);
                        }
                    }
                    assert forall|i: int| 0 <= i < done.len() implies fits_page(
                        #[trigger] done[i],
                        padding as int,
                        settings,
                    ) by {
                        if i >= done_before.len() {
                            assert(done[i] == placed[i - done_before.len()]);
                        }
                    }
                }
            },
            Err(e) => {
                proof {
                    if e is TooLarge {
                        let order = packing_order(input);
                        let i = done.len() as int;
                        assert(order == sorted.reverse());
                        assert(order[i] == sorted[sorted.len() - 1 - i]);
                        assert(sorted[sorted.len() - 1 - i] == before.last());
                        let jj = lemma_sorted_member(input, sorted.len() - 1 - i);
                        assert(input[jj] == order[i]);
                        assert(sprites@[jj] == order[i]);
                        assert forall|j: int| 0 <= j < i implies fits_page(#[trigger] order[j], padding as int, settings) by {
                            assert(order[j] == sorted[sorted.len() - 1 - j]);
                            assert(done.reverse()[done.len() - 1 - j] == done[j]);
                            assert(sorted[sorted.len() - 1 - j] == done.reverse()[done.len() - 1 - j]);
                        }
                    }
                }
                return Err(e);
            },
        }
    }
    proof {
        assert(done.reverse() =~= sorted);
        assert(done =~= sorted.reverse());
        assert forall|k: int| #![trigger pages@[k]] 0 <= k < pages@.len() - 1 implies sprites_before(pages@, k + 1) < sorted.len() by {
            lemma_sprites_before_mono(pages@, k + 2, pages@.len() as int);
            assert(pages@[k + 1].sprites@.len() >= 1);
        }
        assert forall|i: int| 0 <= i < input.len() implies fits_page(
            #[trigger] input[i],
            padding as int,
            settings,
        ) by {
            vstd::seq_lib::to_multiset_contains(input, input[i]);
            assert(input.contains(input[i]));
            vstd::seq_lib::to_multiset_contains(sorted, input[i]);
            let k = sorted.lemma_contains_to_index(input[i]);
            assert(done[sorted.len() - 1 - k] == sorted[k]);
        }
    }
    Ok(pages)
}

/// Adding a page showing the next sprites keeps every page showing its share.
#[verifier::rlimit(50)]
proof fn lemma_pages_extend(
    pages: Seq<AtlasPage>,
    page: AtlasPage,
    done: Seq<SpriteSource>,
    placed: Seq<SpriteSource>,
    pad: int,
    bleed: int,
    settings: TextureAtlasSettings,
)
    requires
        sprites_before(pages, pages.len() as int) == done.len(),
        page_shows(page, placed, pad, bleed),
        page.sprites@.len() == placed.len(),
        1 <= page.width <= settings.max_width,
        1 <= page.height <= settings.max_height,
        forall|k: int|
            0 <= k < pages.len() ==> {
                &&& page_shows(
                    #[trigger] pages[k],
                    done.subrange(sprites_before(pages, k), sprites_before(pages, k + 1)),
                    pad,
                    bleed,
                )
                &&& 1 <= pages[k].width <= settings.max_width
                &&& 1 <= pages[k].height <= settings.max_height
            },
    ensures
        sprites_before(pages.push(page), pages.len() + 1int) == (done + placed).len(),
        forall|k: int|
            0 <= k < pages.len() + 1 ==> {
                &&& page_shows(
                    #[trigger] pages.push(page)[k],
                    (done + placed).subrange(
                        sprites_before(pages.push(page), k),
                        sprites_before(pages.push(page), k + 1),
                    ),
                    pad,
                    bleed,
                )
                &&& 1 <= pages.push(page)[k].width <= settings.max_width
                &&& 1 <= pages.push(page)[k].height <= settings.max_height
            },
{
    let all = pages.push(page);
    let d = done + placed;
    lemma_sprites_before_prefix(pages, all, pages.len() as int);
    assert forall|k: int| 0 <= k < pages.len() + 1 implies {
        &&& page_shows(
            #[trigger] all[k],
            d.subrange(sprites_before(all, k), sprites_before(all, k + 1)),
            pad,
            bleed,
        )
        &&& 1 <= all[k].width <= settings.max_width
        &&& 1 <= all[k].height <= settings.max_height
    } by {
        lemma_sprites_before_prefix(pages, all, k);
        if k < pages.len() {
            lemma_sprites_before_prefix(pages, all, k + 1);
            lemma_sprites_before_mono(pages, k + 1, pages.len() as int);
            lemma_sprites_before_mono(pages, k, k + 1);
            lemma_sprites_before_mono(pages, 0, k);
            let lo = sprites_before(pages, k);
            let hi = sprites_before(pages, k + 1);
            assert(0 <= lo <= hi <= done.len());
            assert(sprites_before(all, k) == lo);
            assert(sprites_before(all, k + 1) == hi);
            assert(d.subrange(sprites_before(all, k), sprites_before(all, k + 1)) =~= done.subrange(
                sprites_before(pages, k),
                sprites_before(pages, k + 1),
            ));
            assert(all[k] == pages[k]);
        } else {
            assert(d.subrange(sprites_before(all, k), sprites_before(all, k + 1)) =~= placed);
        }
    }
}

/// Adding a page closed before the next sprite keeps every page closed
/// before the sprite that follows it.
proof fn lemma_pages_closed(
    pages: Seq<AtlasPage>,
    page: AtlasPage,
    q: AtlasAllocator,
    sorted: Seq<SpriteSource>,
    rest: Seq<SpriteSource>,
    done: Seq<SpriteSource>,
    placed: Seq<SpriteSource>,
    pad: int,
    settings: TextureAtlasSettings,
)
    requires
        sorted == rest + (done + placed).reverse(),
        sprites_before(pages, pages.len() as int) == done.len(),
        page.sprites@.len() == placed.len(),
        page_packed_by(q, page, pad),
        rest.len() > 0 ==> page_closed(q, rest.last(), pad, settings),
        forall|k: int|
            0 <= k < pages.len() && sprites_before(pages, k + 1) < sorted.len() ==> closed_before(
                #[trigger] pages[k],
                sorted.reverse()[sprites_before(pages, k + 1)],
                pad,
                settings,
            ),
    ensures
        forall|k: int|
            0 <= k < pages.len() + 1 && sprites_before(pages.push(page), k + 1) < sorted.len()
                ==> closed_before(
                #[trigger] pages.push(page)[k],
                sorted.reverse()[sprites_before(pages.push(page), k + 1)],
                pad,
                settings,
            ),
{
    let all = pages.push(page);
    assert forall|k: int|
        0 <= k < pages.len() + 1 && sprites_before(all, k + 1) < sorted.len() implies closed_before(
        #[trigger] all[k],
        sorted.reverse()[sprites_before(all, k + 1)],
        pad,
        settings,
    ) by {
        if k < pages.len() {
            lemma_sprites_before_prefix(pages, all, k + 1);
            assert(all[k] == pages[k]);
        } else {
            lemma_sprites_before_prefix(pages, all, pages.len() as int);
            let i = sprites_before(all, k + 1);
            assert(i == done.len() + placed.len());
            assert(rest.len() > 0);
            assert(sorted.reverse()[i] == sorted[sorted.len() - 1 - i]);
            assert(sorted[sorted.len() - 1 - i] == rest.last());
            assert(page_packed_by(q, all[k], pad));
        }
    }
}

/// Counting the sprites of the first pages does not depend on later pages.
proof fn lemma_sprites_before_prefix(a: Seq<AtlasPage>, b: Seq<AtlasPage>, k: int)
    requires
        0 <= k <= a.len() <= b.len(),
        forall|q: int| 0 <= q < a.len() ==> a[q] == b[q],
    ensures
        sprites_before(a, k) == sprites_before(b, k),
    decreases k,
{
    if k > 0 {
        lemma_sprites_before_prefix(a, b, k - 1);
    }
}

/// More pages hold at least as many sprites.
proof fn lemma_sprites_before_mono(a: Seq<AtlasPage>, k: int, l: int)
    requires
        0 <= k <= l,
    ensures
        sprites_before(a, k) <= sprites_before(a, l),
    decreases l - k,
{
    if k < l {
        lemma_sprites_before_mono(a, k, l - 1);
    }
}

} // verus!

verus! {

/// Sprites are packed largest key first, every given sprite exactly once.
pub proof fn law_packing_order(sprites: Seq<SpriteSource>)
    ensures
        packing_order(sprites).to_multiset() == sprites.to_multiset(),
        forall|i: int, j: int|
            0 <= i <= j < packing_order(sprites).len() ==> crate::atlas::order::sprite_key(
                packing_order(sprites)[j],
            ) <= crate::atlas::order::sprite_key(packing_order(sprites)[i]),
{
    let s = stable_sorted(sprites);
    crate::atlas::order::lemma_stable_sorted(sprites);
    s.lemma_reverse_to_multiset();
    assert forall|i: int, j: int| 0 <= i <= j < packing_order(sprites).len() implies crate::atlas::order::sprite_key(
        packing_order(sprites)[j],
    ) <= crate::atlas::order::sprite_key(packing_order(sprites)[i]) by {
        let n = s.len() as int;
        assert(packing_order(sprites)[i] == s[n - 1 - i]);
        assert(packing_order(sprites)[j] == s[n - 1 - j]);
    }
}

} // verus!
