//! The rectangle packer of the `guillotiere` crate, as the atlas pages use it.
//!
//! A packer hands out rectangles of a page; each allocation gets an id. Its
//! contents are named by [`packer_allocations`] and its page size by
//! [`packer_extent`].

use guillotiere::{AtlasAllocator, AllocId, size2};
use vstd::prelude::*;

verus! {

#[verifier::external_type_specification]
#[verifier::external_body]
pub struct ExAtlasAllocator(AtlasAllocator);

/// A rectangle: minimum x, minimum y, maximum x, maximum y (exclusive).
pub type PackRect = (i32, i32, i32, i32);

/// A rectangle with integer bounds.
pub open spec fn rect_int(r: PackRect) -> (int, int, int, int) {
    (r.0 as int, r.1 as int, r.2 as int, r.3 as int)
}

/// The page size of a packer, width then height.
pub uninterp spec fn packer_extent(p: AtlasAllocator) -> (int, int);

/// The rectangles a packer has handed out and not taken back, by id.
pub uninterp spec fn packer_allocations(p: AtlasAllocator) -> Map<u32, (int, int, int, int)>;

/// Whether a packer's free space is the whole page, filed as one free
/// rectangle of the page's size: so `AtlasAllocator::new` leaves it, and so a
/// rearrangement leaves it where there was nothing to place again.
pub uninterp spec fn packer_fresh(p: AtlasAllocator) -> bool;

/// Whether a packer, as it stands, finds a free place for a rectangle of the
/// given width and height: what `AtlasAllocator::allocate` decides by its own
/// search of its free rectangles.
pub uninterp spec fn packer_fits(p: AtlasAllocator, width: int, height: int) -> bool;

/// Whether a packer, resized to the given width and height, places every one
/// of its rectangles again: what `AtlasAllocator::resize_and_rearrange`
/// decides by placing them anew, largest first.
pub uninterp spec fn packer_rearranges(p: AtlasAllocator, width: int, height: int) -> bool;

/// Two rectangles share no point.
pub open spec fn rects_disjoint(a: (int, int, int, int), b: (int, int, int, int)) -> bool {
    a.2 <= b.0 || b.2 <= a.0 || a.3 <= b.1 || b.3 <= a.1
}

/// A rectangle lies in a page of the given size.
pub open spec fn rect_inside(r: (int, int, int, int), width: int, height: int) -> bool {
    0 <= r.0 <= r.2 <= width && 0 <= r.1 <= r.3 <= height
}

/// The rectangles of a packer lie in its page and share no point.
pub open spec fn packer_sound(p: AtlasAllocator) -> bool {
    let a = packer_allocations(p);
    &&& a.dom().finite()
    &&& forall|id: u32| #[trigger]
        a.contains_key(id) ==> rect_inside(a[id], packer_extent(p).0, packer_extent(p).1)
    &&& forall|i: u32, j: u32|
        #![trigger a[i], a[j]]
        a.contains_key(i) && a.contains_key(j) && i != j ==> rects_disjoint(a[i], a[j])
}

/// `AtlasAllocator::new`: an empty packer for a page of the given size.
#[verifier::external_body]
pub(crate) fn packer_new(width: i32, height: i32) -> (r: AtlasAllocator)
    requires
        width > 0,
        height > 0,
    ensures
        packer_extent(r) == (width as int, height as int),
        packer_allocations(r) =~= Map::empty(),
        packer_fresh(r),
{
    AtlasAllocator::new(size2(width, height))
}

/// `AtlasAllocator::size`: the page size, width then height.
#[verifier::external_body]
pub(crate) fn packer_size(p: &AtlasAllocator) -> (r: (i32, i32))
    ensures
        (r.0 as int, r.1 as int) == packer_extent(*p),
{
    let s = p.size();
    (s.width, s.height)
}

/// `AtlasAllocator::is_empty`: whether no rectangle is handed out.
#[verifier::external_body]
pub(crate) fn packer_is_empty(p: &AtlasAllocator) -> (r: bool)
    ensures
        r == packer_allocations(*p).dom().is_empty(),
{
    p.is_empty()
}

/// `AtlasAllocator::allocate`: a free rectangle of exactly the requested size,
/// in the page and apart from every rectangle handed out, with a fresh id; or
/// nothing. A request with a side that is not positive gets nothing, and an
/// empty packer whose free space is still the whole page in one piece (see
/// [`packer_fresh`]) serves every request that fits its page. Whether a place
/// is found is named by [`packer_fits`], and a request that found none finds
/// none again: the failed search only drops stale entries of the free lists.
/// Which free place is chosen is the packer's own rule and is not stated.
#[verifier::external_body]
pub(crate) fn packer_allocate(p: &mut AtlasAllocator, width: i32, height: i32) -> (r: Option<(u32, PackRect)>)
    ensures
        packer_extent(*final(p)) == packer_extent(*old(p)),
        match r {
            Some((id, rect)) => {
                &&& !packer_allocations(*old(p)).contains_key(id)
                &&& packer_allocations(*final(p)) == packer_allocations(*old(p)).insert(
                    id,
                    rect_int(rect),
                )
                &&& rect.2 - rect.0 == width
                &&& rect.3 - rect.1 == height
                &&& rect_inside(rect_int(rect), packer_extent(*old(p)).0, packer_extent(*old(p)).1)
                &&& forall|k: u32| #[trigger]
                    packer_allocations(*old(p)).contains_key(k) ==> rects_disjoint(
                        packer_allocations(*old(p))[k],
                        rect_int(rect),
                    )
            },
            None => packer_allocations(*final(p)) == packer_allocations(*old(p)),
        },
        width <= 0 || height <= 0 ==> r is None,
        r is Some <==> packer_fits(*old(p), width as int, height as int),
        r is None ==> !packer_fits(*final(p), width as int, height as int),
        packer_fresh(*old(p)) && packer_allocations(*old(p)).dom().is_empty() && 0 < width
            <= packer_extent(*old(p)).0 && 0 < height <= packer_extent(*old(p)).1 ==> r is Some,
{
    match p.allocate(size2(width, height)) {
        Some(a) => Some(
            (a.id.serialize(), (a.rectangle.min.x, a.rectangle.min.y, a.rectangle.max.x, a.rectangle.max.y)),
        ),
        None => None,
    }
}

/// `AtlasAllocator::resize_and_rearrange`: resizes the page and places every
/// rectangle anew. Each change names an old id, the new id and the new
/// rectangle, of the old rectangle's size; each old rectangle is either changed
/// or listed, by old id, as not placed. The new rectangles are the only ones
/// handed out, lie in the new page and share no point. With nothing to place,
/// the packer is left as a new one. Whether every rectangle is placed again is
/// named by [`packer_rearranges`].
#[verifier::external_body]
pub(crate) fn packer_rearrange(p: &mut AtlasAllocator, width: i32, height: i32) -> (r: (
    Vec<(u32, u32, PackRect)>,
    Vec<u32>,
))
    ensures
        packer_extent(*final(p)) == (width as int, height as int),
        forall|i: int|
            0 <= i < r.0@.len() ==> {
                &&& #[trigger] packer_allocations(*old(p)).contains_key(r.0@[i].0)
                &&& packer_allocations(*final(p)).contains_key(r.0@[i].1)
                &&& packer_allocations(*final(p))[r.0@[i].1] == rect_int(r.0@[i].2)
                &&& r.0@[i].2.2 - r.0@[i].2.0 == packer_allocations(*old(p))[r.0@[i].0].2
                    - packer_allocations(*old(p))[r.0@[i].0].0
                &&& r.0@[i].2.3 - r.0@[i].2.1 == packer_allocations(*old(p))[r.0@[i].0].3
                    - packer_allocations(*old(p))[r.0@[i].0].1
            },
        forall|i: int, j: int|
            #![trigger r.0@[i], r.0@[j]]
            0 <= i < r.0@.len() && 0 <= j < r.0@.len() && i != j ==> r.0@[i].0 != r.0@[j].0
                && r.0@[i].1 != r.0@[j].1,
        forall|id: u32| #[trigger]
            packer_allocations(*final(p)).contains_key(id) ==> exists|i: int|
                0 <= i < r.0@.len() && r.0@[i].1 == id,
        forall|id: u32| #[trigger]
            packer_allocations(*old(p)).contains_key(id) ==> (exists|i: int|
                0 <= i < r.0@.len() && r.0@[i].0 == id) || r.1@.contains(id),
        packer_sound(*final(p)),
        forall|i: int| 0 <= i < r.1@.len() ==> #[trigger] packer_allocations(*old(p)).contains_key(r.1@[i]),
        r.1@.len() == 0 <==> packer_rearranges(*old(p), width as int, height as int),
        packer_allocations(*old(p)).dom().is_empty() ==> packer_fresh(*final(p)),
{
    let list = p.resize_and_rearrange(size2(width, height));
    let changes = list.changes.iter().map(
        |c: &guillotiere::Change|
            (
                c.old.id.serialize(),
                c.new.id.serialize(),
                (c.new.rectangle.min.x, c.new.rectangle.min.y, c.new.rectangle.max.x, c.new.rectangle.max.y),
            ),
    ).collect();
    let failures = list.failures.iter().map(|a: &guillotiere::Allocation| a.id.serialize()).collect();
    (changes, failures)
}

/// `AtlasAllocator::clone` (derived): a packer with the same page, rectangles
/// and free space, which therefore answers every request and every
/// rearrangement as the packer it was cloned from does.
#[verifier::external_body]
pub(crate) fn packer_clone(p: &AtlasAllocator) -> (r: AtlasAllocator)
    ensures
        packer_extent(r) == packer_extent(*p),
        packer_allocations(r) == packer_allocations(*p),
        forall|w: int, h: int| #[trigger] packer_fits(r, w, h) == packer_fits(*p, w, h),
        forall|w: int, h: int| #[trigger] packer_rearranges(r, w, h) == packer_rearranges(*p, w, h),
{
    p.clone()
}

/// `AtlasAllocator::grow`: enlarges the page, keeping every rectangle.
#[verifier::external_body]
pub(crate) fn packer_grow(p: &mut AtlasAllocator, width: i32, height: i32)
    requires
        width >= packer_extent(*old(p)).0,
        height >= packer_extent(*old(p)).1,
    ensures
        packer_extent(*final(p)) == (width as int, height as int),
        packer_allocations(*final(p)) == packer_allocations(*old(p)),
{
    p.grow(size2(width, height))
}

/// `AtlasAllocator` indexed by an id: the rectangle handed out under it.
#[verifier::external_body]
pub(crate) fn packer_rect(p: &AtlasAllocator, id: u32) -> (r: PackRect)
    requires
        packer_allocations(*p).contains_key(id),
    ensures
        rect_int(r) == packer_allocations(*p)[id],
{
    let b = p[AllocId::deserialize(id)];
    (b.min.x, b.min.y, b.max.x, b.max.y)
}

} // verus!
