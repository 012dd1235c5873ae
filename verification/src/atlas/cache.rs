//! Looking sprites up in loaded atlases: the information a sprite entry is
//! drawn with, the cached infos of an entity's entries, and the tracking of
//! which atlases changed.
//!
//! Assets are named by ids: an atlas, an atlas page image and a page layout
//! each have one. The loaded atlases and layouts are maps from their ids.

use bevy_platform::collections::HashMap;
use vstd::prelude::*;

use crate::atlas::nine::NineSliceCuts;
use crate::rect::URect;

verus! {

broadcast use vstd::std_specs::hash::group_hash_axioms;

/// A sprite of an atlas: where its rectangle is listed and which page image
/// holds it.
#[derive(Clone, Copy, Debug, PartialEq, Eq, Structural)]
pub struct AtlasSprite {
    /// Id of the page layout listing the sprite's rectangle.
    pub layout: u64,
    /// Index of the rectangle in the layout.
    pub index: usize,
    /// Id of the page image.
    pub page: u64,
    /// The sprite's nine-slice cuts, if any.
    pub nine_slices: Option<NineSliceCuts>,
}

/// The layout of an atlas page: its size and the rectangles of its sprites.
#[derive(Clone, Debug)]
pub struct AtlasLayout {
    /// Width of the page.
    pub width: u32,
    /// Height of the page.
    pub height: u32,
    /// The sprite rectangles.
    pub textures: Vec<URect>,
}

/// A loaded atlas.
pub struct Atlas {
    /// The page layout and page image ids, page by page.
    pub pages: Vec<(u64, u64)>,
    /// The sprites by path.
    pub sprites: HashMap<String, AtlasSprite>,
}

/// The sprites of an atlas, keyed by the characters of each path.
pub uninterp spec fn sprite_entries(m: HashMap<String, AtlasSprite>) -> Map<Seq<char>, AtlasSprite>;

/// `HashMap::get`: the sprite stored under a path with the same characters,
/// if any.
#[verifier::external_body]
fn sprite_map_get<'a>(m: &'a HashMap<String, AtlasSprite>, key: &str) -> (r: Option<&'a AtlasSprite>)
    ensures
        match r {
            Some(v) => sprite_entries(*m).contains_key(key@) && *v == sprite_entries(*m)[key@],
            None => !sprite_entries(*m).contains_key(key@),
        },
{
    m.get(key)
}

/// What drawing a sprite needs: its page, the page size, its rectangle and
/// its nine-slice cuts.
#[derive(Clone, Copy, Debug, PartialEq, Eq, Structural)]
pub struct AtlasInfo {
    /// The page image id; `None` in the placeholder info.
    pub page: Option<u64>,
    /// Width of the page.
    pub page_width: u32,
    /// Height of the page.
    pub page_height: u32,
    /// The sprite's rectangle in the page.
    pub rect: URect,
    /// The sprite's nine-slice cuts, if any.
    pub nine_slices: Option<NineSliceCuts>,
}

/// The placeholder info: no page, an empty page and rectangle, no cuts.
pub open spec fn placeholder_info() -> AtlasInfo {
    AtlasInfo { page: None, page_width: 0, page_height: 0, rect: URect { min_x: 0, min_y: 0, max_x: 0, max_y: 0 }, nine_slices: None }
}

impl Default for AtlasInfo {
    /// The placeholder info.
    fn default() -> (r: AtlasInfo)
        ensures
            r == placeholder_info(),
    {
        AtlasInfo { page: None, page_width: 0, page_height: 0, rect: URect { min_x: 0, min_y: 0, max_x: 0, max_y: 0 }, nine_slices: None }
    }
}

/// Why a sprite entry cannot be looked up.
#[derive(Clone, Copy, Debug, PartialEq, Eq, Structural)]
pub enum AtlasEntryError {
    /// The path names no sprite of the atlas.
    SpriteNotFound,
    /// The sprite's page layout is not loaded or lists no rectangle at the
    /// sprite's index.
    LayoutNotFound,
}

/// The info of the sprite at `path` in an atlas with the given sprites.
pub open spec fn info_spec(sprites: Map<Seq<char>, AtlasSprite>, layouts: Map<u64, AtlasLayout>, path: Seq<char>) -> Result<
    AtlasInfo,
    AtlasEntryError,
> {
    if !sprites.contains_key(path) {
        Err(AtlasEntryError::SpriteNotFound)
    } else {
        let s = sprites[path];
        if !layouts.contains_key(s.layout) || s.index >= layouts[s.layout].textures@.len() {
            Err(AtlasEntryError::LayoutNotFound)
        } else {
            let l = layouts[s.layout];
            Ok(AtlasInfo { page: Some(s.page), page_width: l.width, page_height: l.height, rect: l.textures@[s.index as int], nine_slices: s.nine_slices })
        }
    }
}

impl Atlas {
    /// The information for drawing the sprite at `path`, with the loaded
    /// page layouts.
    pub fn get_info(&self, layouts: &std::collections::HashMap<u64, AtlasLayout>, path: &str) -> (r: Result<
        AtlasInfo,
        AtlasEntryError,
    >)
        ensures
            r == info_spec(sprite_entries(self.sprites), layouts@, path@),
    {
        let entry = match sprite_map_get(&self.sprites, path) {
            Some(entry) => entry,
            None => {
                return Err(AtlasEntryError::SpriteNotFound);
            },
        };
        let layout = match layouts.get(&entry.layout) {
            Some(layout) => layout,
            None => {
                return Err(AtlasEntryError::LayoutNotFound);
            },
        };
        if entry.index >= layout.textures.len() {
            return Err(AtlasEntryError::LayoutNotFound);
        }
        let rect = layout.textures[entry.index];
        Ok(AtlasInfo { page: Some(entry.page), page_width: layout.width, page_height: layout.height, rect, nine_slices: entry.nine_slices })
    }
}

/// A sprite to look up: the atlas id and the sprite path.
#[derive(Clone, Debug)]
pub struct AtlasEntry {
    /// Id of the atlas.
    pub atlas: u64,
    /// The sprite's full path, without its file extension.
    pub path: String,
}

impl AtlasEntry {
    /// The entry for `path` in `atlas`.
    pub fn new(atlas: u64, path: String) -> (r: AtlasEntry)
        ensures
            r.atlas == atlas,
            r.path == path,
    {
        AtlasEntry { atlas, path }
    }
}

/// The cached info of an entry: the info of its sprite where its atlas is
/// loaded and the lookup succeeds, else the placeholder.
pub open spec fn entry_info(e: AtlasEntry, atlases: Map<u64, Atlas>, layouts: Map<u64, AtlasLayout>) -> AtlasInfo {
    if atlases.contains_key(e.atlas) {
        match info_spec(sprite_entries(atlases[e.atlas].sprites), layouts, e.path@) {
            Ok(info) => info,
            Err(_) => placeholder_info(),
        }
    } else {
        placeholder_info()
    }
}

/// Updates the cached infos of an entity's entries: afterwards there is one
/// cache for each entry, in entries order, holding the info of the entry's
/// sprite where its atlas is loaded and the lookup succeeds, and the
/// placeholder otherwise.
pub fn update_caches(
    entries: &Vec<AtlasEntry>,
    atlases: &std::collections::HashMap<u64, Atlas>,
    layouts: &std::collections::HashMap<u64, AtlasLayout>,
    caches: &mut Vec<AtlasInfo>,
)
    ensures
        final(caches)@.len() == entries@.len(),
        forall|i: int|
            0 <= i < entries@.len() ==> #[trigger] final(caches)@[i] == entry_info(entries@[i], atlases@, layouts@),
{
    let ghost c0 = caches@;
    let mut i: usize = 0;
    while i < entries.len()
        invariant
            i <= entries@.len(),
            caches@.len() == if c0.len() > i {
                c0.len() as int
            } else {
                i as int
            },
            forall|j: int| 0 <= j < i ==> caches@[j] == entry_info(entries@[j], atlases@, layouts@),
        decreases entries@.len() - i,
    {
        if i >= caches.len() {
            caches.push(AtlasInfo::default());
        }
        let entry = &entries[i];
        let info = match atlases.get(&entry.atlas) {
            Some(atlas) => match atlas.get_info(layouts, entry.path.as_str()) {
                Ok(found) => found,
                Err(_) => AtlasInfo::default(),
            },
            None => AtlasInfo::default(),
        };
        caches.set(i, info);
        i = i + 1;
    }
    caches.truncate(entries.len());
}

/// An event on an asset, naming the asset's id.
#[derive(Clone, Copy, Debug, PartialEq, Eq, Structural)]
pub enum AssetEvent {
    /// The asset was added.
    Added(u64),
    /// The asset was modified.
    Modified(u64),
    /// The asset and all its dependencies were loaded.
    LoadedWithDependencies(u64),
    /// The asset was removed.
    Removed(u64),
    /// The asset is no longer used.
    Unused(u64),
}

/// The id an event names.
pub open spec fn event_id(e: AssetEvent) -> u64 {
    match e {
        AssetEvent::Added(id) => id,
        AssetEvent::Modified(id) => id,
        AssetEvent::LoadedWithDependencies(id) => id,
        AssetEvent::Removed(id) => id,
        AssetEvent::Unused(id) => id,
    }
}

/// Whether an event takes its asset away.
pub open spec fn is_removal(e: AssetEvent) -> bool {
    e is Removed || e is Unused
}

impl AssetEvent {
    /// The id the event names.
    pub fn id(&self) -> (r: u64)
        ensures
            r == event_id(*self),
    {
        match self {
            AssetEvent::Added(id) => *id,
            AssetEvent::Modified(id) => *id,
            AssetEvent::LoadedWithDependencies(id) => *id,
            AssetEvent::Removed(id) => *id,
            AssetEvent::Unused(id) => *id,
        }
    }

    /// Whether the event takes its asset away.
    pub fn removes(&self) -> (r: bool)
        ensures
            r == is_removal(*self),
    {
        matches!(self, AssetEvent::Removed(_) | AssetEvent::Unused(_))
    }
}

/// Which atlases changed, and when: the tick of each atlas's last change,
/// and the tick at which any last changed.
pub struct AtlasChanges {
    /// The tick of each atlas's last change, by atlas id.
    pub changes: HashMap<u64, u32>,
    /// The tick at which any atlas last changed.
    pub last_change: u32,
}

/// The change ticks, by atlas id.
pub uninterp spec fn change_ticks(m: HashMap<u64, u32>) -> Map<u64, u32>;

/// The atlas owning each page layout, by layout id.
pub uninterp spec fn layout_owners(m: HashMap<u64, u64>) -> Map<u64, u64>;

/// `HashMap::new`: no change recorded.
#[verifier::external_body]
fn ticks_new() -> (r: HashMap<u64, u32>)
    ensures
        change_ticks(r) =~= Map::empty(),
{
    HashMap::new()
}

/// `HashMap::insert`: records `tick` for `id`, returning the tick it replaces.
#[verifier::external_body]
fn ticks_insert(m: &mut HashMap<u64, u32>, id: u64, tick: u32) -> (r: Option<u32>)
    ensures
        change_ticks(*final(m)) == change_ticks(*old(m)).insert(id, tick),
        r == (if change_ticks(*old(m)).contains_key(id) {
            Some(change_ticks(*old(m))[id])
        } else {
            None
        }),
{
    m.insert(id, tick)
}

/// `HashMap::remove`: forgets the tick of `id`, returning it.
#[verifier::external_body]
fn ticks_remove(m: &mut HashMap<u64, u32>, id: u64) -> (r: Option<u32>)
    ensures
        change_ticks(*final(m)) == change_ticks(*old(m)).remove(id),
        r == (if change_ticks(*old(m)).contains_key(id) {
            Some(change_ticks(*old(m))[id])
        } else {
            None
        }),
{
    m.remove(&id)
}

/// `HashMap::get`: the atlas owning a layout, if recorded.
#[verifier::external_body]
fn owners_get(m: &HashMap<u64, u64>, id: u64) -> (r: Option<&u64>)
    ensures
        match r {
            Some(v) => layout_owners(*m).contains_key(id) && *v == layout_owners(*m)[id],
            None => !layout_owners(*m).contains_key(id),
        },
{
    m.get(&id)
}

/// `HashMap::insert`: records the atlas owning a layout, returning the one
/// it replaces.
#[verifier::external_body]
fn owners_insert(m: &mut HashMap<u64, u64>, id: u64, atlas: u64) -> (r: Option<u64>)
    ensures
        layout_owners(*final(m)) == layout_owners(*old(m)).insert(id, atlas),
        r == (if layout_owners(*old(m)).contains_key(id) {
            Some(layout_owners(*old(m))[id])
        } else {
            None
        }),
{
    m.insert(id, atlas)
}

/// `HashMap::remove`: forgets the owner of a layout, returning it.
#[verifier::external_body]
fn owners_remove(m: &mut HashMap<u64, u64>, id: u64) -> (r: Option<u64>)
    ensures
        layout_owners(*final(m)) == layout_owners(*old(m)).remove(id),
        r == (if layout_owners(*old(m)).contains_key(id) {
            Some(layout_owners(*old(m))[id])
        } else {
            None
        }),
{
    m.remove(&id)
}

impl AtlasChanges {
    /// No change recorded, the last at tick 0.
    pub fn new() -> (r: AtlasChanges)
        ensures
            change_ticks(r.changes) == Map::<u64, u32>::empty(),
            r.last_change == 0,
    {
        AtlasChanges { changes: ticks_new(), last_change: 0 }
    }
}

/// The change ticks, the layout owners and whether anything changed after
/// one layout event at `tick`: an event on a layout some atlas owns records
/// a change of that atlas, and a removal forgets the owner.
pub open spec fn layout_step(st: (Map<u64, u32>, Map<u64, u64>, bool), e: AssetEvent, tick: u32) -> (
    Map<u64, u32>,
    Map<u64, u64>,
    bool,
) {
    let (ch, used, has) = st;
    let id = event_id(e);
    if !used.contains_key(id) {
        st
    } else if is_removal(e) {
        (ch.insert(used[id], tick), used.remove(id), true)
    } else {
        (ch.insert(used[id], tick), used, true)
    }
}

/// The owners after an atlas claims its pages' layouts, in page order.
pub open spec fn claim_pages(used: Map<u64, u64>, pages: Seq<(u64, u64)>, id: u64) -> Map<u64, u64>
    decreases pages.len(),
{
    if pages.len() == 0 {
        used
    } else {
        claim_pages(used, pages.drop_last(), id).insert(pages.last().0, id)
    }
}

/// The state after one atlas event at `tick`: a removal forgets the atlas's
/// change and counts as a change; any other event records a change of the
/// atlas, and where the atlas is loaded it claims its pages' layouts, which
/// counts as a change where it has pages.
pub open spec fn atlas_step(atlases: Map<u64, Atlas>, st: (Map<u64, u32>, Map<u64, u64>, bool), e: AssetEvent, tick: u32) -> (
    Map<u64, u32>,
    Map<u64, u64>,
    bool,
) {
    let (ch, used, has) = st;
    let id = event_id(e);
    if is_removal(e) {
        (ch.remove(id), used, true)
    } else if atlases.contains_key(id) {
        let pages = atlases[id].pages@;
        (ch.insert(id, tick), claim_pages(used, pages, id), has || pages.len() > 0)
    } else {
        (ch.insert(id, tick), used, has)
    }
}

/// The state after layout events, in order.
pub open spec fn layout_events_after(events: Seq<AssetEvent>, st: (Map<u64, u32>, Map<u64, u64>, bool), tick: u32) -> (
    Map<u64, u32>,
    Map<u64, u64>,
    bool,
)
    decreases events.len(),
{
    if events.len() == 0 {
        st
    } else {
        layout_step(layout_events_after(events.drop_last(), st, tick), events.last(), tick)
    }
}

/// The state after atlas events, in order.
pub open spec fn atlas_events_after(
    atlases: Map<u64, Atlas>,
    events: Seq<AssetEvent>,
    st: (Map<u64, u32>, Map<u64, u64>, bool),
    tick: u32,
) -> (Map<u64, u32>, Map<u64, u64>, bool)
    decreases events.len(),
{
    if events.len() == 0 {
        st
    } else {
        atlas_step(atlases, atlas_events_after(atlases, events.drop_last(), st, tick), events.last(), tick)
    }
}

/// Records the changes that this update's layout and atlas events make, at
/// `tick`: the layout events first, then the atlas events. Where any change
/// was counted, `last_change` becomes `tick`. `used_layouts` maps each page
/// layout to the atlas owning it.
pub fn detect_changes(
    atlases: &std::collections::HashMap<u64, Atlas>,
    atlas_events: &Vec<AssetEvent>,
    layout_events: &Vec<AssetEvent>,
    changes: &mut AtlasChanges,
    tick: u32,
    used_layouts: &mut HashMap<u64, u64>,
)
    ensures
        ({
            let st = atlas_events_after(
                atlases@,
                atlas_events@,
                layout_events_after(
                    layout_events@,
                    (change_ticks(old(changes).changes), layout_owners(*old(used_layouts)), false),
                    tick,
                ),
                tick,
            );
            &&& change_ticks(final(changes).changes) == st.0
            &&& layout_owners(*final(used_layouts)) == st.1
            &&& final(changes).last_change == if st.2 {
                tick
            } else {
                old(changes).last_change
            }
        }),
{
    let ghost st0 = (change_ticks(changes.changes), layout_owners(*used_layouts), false);
    let ghost last0 = changes.last_change;
    let mut has = false;
    let mut k: usize = 0;
    while k < layout_events.len()
        invariant
            k <= layout_events@.len(),
            changes.last_change == last0,
            (change_ticks(changes.changes), layout_owners(*used_layouts), has) == layout_events_after(
                layout_events@.subrange(0, k as int),
                st0,
                tick,
            ),
        decreases layout_events@.len() - k,
    {
        let e = layout_events[k];
        proof {
            assert(layout_events@.subrange(0, k + 1).drop_last() =~= layout_events@.subrange(0, k as int));
        }
        let id = e.id();
        if e.removes() {
            if let Some(atlas) = owners_remove(used_layouts, id) {
                ticks_insert(&mut changes.changes, atlas, tick);
                has = true;
            }
        } else {
            let owner = match owners_get(used_layouts, id) {
                Some(atlas) => Some(*atlas),
                None => None,
            };
            if let Some(atlas) = owner {
                ticks_insert(&mut changes.changes, atlas, tick);
                has = true;
            }
        }
        k = k + 1;
    }
    proof {
        assert(layout_events@.subrange(0, layout_events@.len() as int) =~= layout_events@);
    }
    let ghost st1 = (change_ticks(changes.changes), layout_owners(*used_layouts), has);
    let mut k: usize = 0;
    while k < atlas_events.len()
        invariant
            k <= atlas_events@.len(),
            changes.last_change == last0,
            (change_ticks(changes.changes), layout_owners(*used_layouts), has) == atlas_events_after(
                atlases@,
                atlas_events@.subrange(0, k as int),
                st1,
                tick,
            ),
        decreases atlas_events@.len() - k,
    {
        let e = atlas_events[k];
        proof {
            assert(atlas_events@.subrange(0, k + 1).drop_last() =~= atlas_events@.subrange(0, k as int));
        }
        let id = e.id();
        if e.removes() {
            ticks_remove(&mut changes.changes, id);
            has = true;
        } else {
            ticks_insert(&mut changes.changes, id, tick);
            match atlases.get(&id) {
                Some(atlas) => {
                    let ghost used0 = layout_owners(*used_layouts);
                    let ghost has0 = has;
                    let mut j: usize = 0;
                    while j < atlas.pages.len()
                        invariant
                            j <= atlas.pages@.len(),
                            layout_owners(*used_layouts) == claim_pages(used0, atlas.pages@.subrange(0, j as int), id),
                            has == (has0 || j > 0),
                        decreases atlas.pages@.len() - j,
                    {
                        proof {
                            assert(atlas.pages@.subrange(0, j + 1).drop_last() =~= atlas.pages@.subrange(0, j as int));
                        }
                        owners_insert(used_layouts, atlas.pages[j].0, id);
                        has = true;
                        j = j + 1;
                    }
                    proof {
                        assert(atlas.pages@.subrange(0, atlas.pages@.len() as int) =~= atlas.pages@);
                    }
                },
                None => {},
            }
        }
        k = k + 1;
    }
    proof {
        assert(atlas_events@.subrange(0, atlas_events@.len() as int) =~= atlas_events@);
    }
    if has {
        changes.last_change = tick;
    }
}

} // verus!

verus! {

/// Layout event `i` reaches an owned layout: the layout had an owner before
/// the events and no earlier event removed it.
pub open spec fn reaches_owned(events: Seq<AssetEvent>, used: Map<u64, u64>, i: int) -> bool {
    &&& 0 <= i < events.len()
    &&& used.contains_key(event_id(events[i]))
    &&& forall|j: int|
        0 <= j < i ==> !(is_removal(#[trigger] events[j]) && event_id(events[j]) == event_id(events[i]))
}

/// Some layout event removes the layout `id`.
pub open spec fn removed_by(events: Seq<AssetEvent>, id: u64) -> bool {
    exists|j: int| 0 <= j < events.len() && is_removal(#[trigger] events[j]) && event_id(events[j]) == id
}

/// Some layout event reaches a layout owned by `atlas`.
pub open spec fn atlas_reached(events: Seq<AssetEvent>, used: Map<u64, u64>, atlas: u64) -> bool {
    exists|i: int| #[trigger] reaches_owned(events, used, i) && used[event_id(events[i])] == atlas
}

/// Some layout event reaches an owned layout.
pub open spec fn any_reached(events: Seq<AssetEvent>, used: Map<u64, u64>) -> bool {
    exists|i: int| #[trigger] reaches_owned(events, used, i)
}

/// Reaching an owned layout depends only on the events up to it.
proof fn lemma_reaches_prefix(events: Seq<AssetEvent>, used: Map<u64, u64>, i: int)
    requires
        events.len() > 0,
        0 <= i < events.len() - 1,
    ensures
        reaches_owned(events, used, i) == reaches_owned(events.drop_last(), used, i),
{
    let d = events.drop_last();
    assert(events[i] == d[i]);
    if reaches_owned(d, used, i) {
        assert forall|j: int| 0 <= j < i implies !(is_removal(#[trigger] events[j]) && event_id(events[j])
            == event_id(events[i])) by {
            assert(events[j] == d[j]);
        }
    }
    if reaches_owned(events, used, i) {
        assert forall|j: int| 0 <= j < i implies !(is_removal(#[trigger] d[j]) && event_id(d[j]) == event_id(
            d[i],
        )) by {
            assert(events[j] == d[j]);
        }
    }
}

/// What layout events do, stated over the events themselves: an event on a
/// layout that still has its owner, whatever kind of event, counts as a change
/// of the owning atlas at `tick`; removals forget exactly the owners of the
/// layouts they remove; the change of no other atlas is touched; and a change
/// is counted exactly when some event reaches an owned layout.
pub proof fn law_layout_events(ch: Map<u64, u32>, used: Map<u64, u64>, has: bool, events: Seq<AssetEvent>, tick: u32)
    ensures
        forall|id: u64| #[trigger]
            layout_events_after(events, (ch, used, has), tick).1.contains_key(id) == (used.contains_key(id)
                && !removed_by(events, id)),
        forall|id: u64| #[trigger]
            layout_events_after(events, (ch, used, has), tick).1.contains_key(id) ==> layout_events_after(
                events,
                (ch, used, has),
                tick,
            ).1[id] == used[id],
        forall|a: u64| #[trigger]
            atlas_reached(events, used, a) ==> layout_events_after(events, (ch, used, has), tick).0.contains_key(a)
                && layout_events_after(events, (ch, used, has), tick).0[a] == tick,
        forall|a: u64|
            !atlas_reached(events, used, a) ==> (#[trigger] layout_events_after(events, (ch, used, has), tick).0.contains_key(
                a,
            )) == ch.contains_key(a) && (ch.contains_key(a) ==> layout_events_after(events, (ch, used, has), tick).0[a]
                == ch[a]),
        layout_events_after(events, (ch, used, has), tick).2 == (has || any_reached(events, used)),
    decreases events.len(),
{
    let r = layout_events_after(events, (ch, used, has), tick);
    if events.len() == 0 {
        assert forall|id: u64| #[trigger] r.1.contains_key(id) == (used.contains_key(id) && !removed_by(events, id)) by {}
        assert(!any_reached(events, used));
        assert forall|a: u64| !atlas_reached(events, used, a) by {}
    } else {
        let d = events.drop_last();
        let n = events.len() - 1;
        let e = events.last();
        let x = event_id(e);
        law_layout_events(ch, used, has, d, tick);
        let p = layout_events_after(d, (ch, used, has), tick);
        assert(events[n] == e);
        // Whether the last event reaches an owned layout.
        assert(p.1.contains_key(x) == reaches_owned(events, used, n)) by {
            if reaches_owned(events, used, n) {
                if removed_by(d, x) {
                    let j = choose|j: int| 0 <= j < d.len() && is_removal(#[trigger] d[j]) && event_id(d[j]) == x;
                    assert(events[j] == d[j]);
                }
            } else if used.contains_key(x) && !removed_by(d, x) {
                assert forall|j: int| 0 <= j < n implies !(is_removal(#[trigger] events[j]) && event_id(events[j])
                    == event_id(events[n])) by {
                    assert(events[j] == d[j]);
                }
            }
        }
        assert forall|i: int| 0 <= i < n implies reaches_owned(events, used, i) == reaches_owned(d, used, i) by {
            lemma_reaches_prefix(events, used, i);
        }
        assert forall|id: u64| #[trigger] removed_by(events, id) == (removed_by(d, id) || (is_removal(e) && x == id)) by {
            if removed_by(events, id) {
                let j = choose|j: int| 0 <= j < events.len() && is_removal(#[trigger] events[j]) && event_id(events[j]) == id;
                if j < n {
                    assert(d[j] == events[j]);
                }
            }
            if removed_by(d, id) {
                let j = choose|j: int| 0 <= j < d.len() && is_removal(#[trigger] d[j]) && event_id(d[j]) == id;
                assert(events[j] == d[j]);
            }
        }
        assert forall|a: u64| #[trigger] atlas_reached(events, used, a) == (atlas_reached(d, used, a) || (
        reaches_owned(events, used, n) && used[x] == a)) by {
            if atlas_reached(events, used, a) {
                let i = choose|i: int| #[trigger] reaches_owned(events, used, i) && used[event_id(events[i])] == a;
                if i < n {
                    assert(reaches_owned(d, used, i));
                    assert(d[i] == events[i]);
                }
            }
            if atlas_reached(d, used, a) {
                let i = choose|i: int| #[trigger] reaches_owned(d, used, i) && used[event_id(d[i])] == a;
                assert(reaches_owned(events, used, i));
                assert(d[i] == events[i]);
            }
        }
        assert(any_reached(events, used) == (any_reached(d, used) || reaches_owned(events, used, n))) by {
            if any_reached(events, used) {
                let i = choose|i: int| #[trigger] reaches_owned(events, used, i);
                if i < n {
                    assert(reaches_owned(d, used, i));
                }
            }
            if any_reached(d, used) {
                let i = choose|i: int| #[trigger] reaches_owned(d, used, i);
                assert(reaches_owned(events, used, i));
            }
        }
        if p.1.contains_key(x) {
            assert(p.1[x] == used[x]);
        }
        assert(r == layout_step(p, e, tick));
        assert forall|id: u64| #[trigger] r.1.contains_key(id) == (used.contains_key(id) && !removed_by(events, id)) by {}
        assert forall|id: u64| #[trigger] r.1.contains_key(id) implies r.1[id] == used[id] by {}
        assert forall|a: u64| #[trigger] atlas_reached(events, used, a) implies r.0.contains_key(a) && r.0[a] == tick by {
            if !atlas_reached(d, used, a) {
                assert(reaches_owned(events, used, n) && used[x] == a);
            }
        }
        assert forall|a: u64| !atlas_reached(events, used, a) implies (#[trigger] r.0.contains_key(a)) == ch.contains_key(a)
            && (ch.contains_key(a) ==> r.0[a] == ch[a]) by {
            assert(!atlas_reached(d, used, a));
            assert(p.0.contains_key(a) == ch.contains_key(a));
            if p.1.contains_key(x) {
                assert(reaches_owned(events, used, n));
                assert(used[x] != a);
                assert(p.1[x] != a);
            }
        }
    }
}

/// `detect_changes` on layout events alone: every atlas owning a layout that
/// an event reaches, a removal as much as a modification, has its change
/// recorded at `tick`, and `last_change` becomes `tick`; no other atlas's
/// change is touched; removed layouts lose their owner.
pub proof fn law_layout_changes(
    atlases: Map<u64, Atlas>,
    ch: Map<u64, u32>,
    used: Map<u64, u64>,
    last: u32,
    events: Seq<AssetEvent>,
    tick: u32,
)
    ensures
        ({
            let st = atlas_events_after(
                atlases,
                Seq::<AssetEvent>::empty(),
                layout_events_after(events, (ch, used, false), tick),
                tick,
            );
            let last_after = if st.2 {
                tick
            } else {
                last
            };
            &&& forall|a: u64| #[trigger]
                atlas_reached(events, used, a) ==> st.0.contains_key(a) && st.0[a] == tick && last_after == tick
            &&& forall|a: u64|
                !atlas_reached(events, used, a) ==> (#[trigger] st.0.contains_key(a)) == ch.contains_key(a) && (
                ch.contains_key(a) ==> st.0[a] == ch[a])
            &&& forall|id: u64| #[trigger]
                st.1.contains_key(id) == (used.contains_key(id) && !removed_by(events, id))
            &&& last_after == (if any_reached(events, used) {
                tick
            } else {
                last
            })
        }),
{
    law_layout_events(ch, used, false, events, tick);
    assert forall|a: u64| #[trigger] atlas_reached(events, used, a) implies any_reached(events, used) by {
        let i = choose|i: int| #[trigger] reaches_owned(events, used, i) && used[event_id(events[i])] == a;
    }
}

} // verus!

verus! {

/// Whether some page of `pages` has the layout `l`.
pub open spec fn in_pages(pages: Seq<(u64, u64)>, l: u64) -> bool {
    exists|j: int| 0 <= j < pages.len() && (#[trigger] pages[j]).0 == l
}

/// Whether atlas `a` is loaded and has a page whose layout is `l`.
pub open spec fn has_page(atlases: Map<u64, Atlas>, a: u64, l: u64) -> bool {
    atlases.contains_key(a) && in_pages(atlases[a].pages@, l)
}

/// Whether an atlas event claims the layout `l`: it is no removal, and its
/// atlas is loaded with a page of that layout.
pub open spec fn claims(atlases: Map<u64, Atlas>, e: AssetEvent, l: u64) -> bool {
    !is_removal(e) && has_page(atlases, event_id(e), l)
}

/// Event `i` is the last of `events` naming its asset.
pub open spec fn last_naming(events: Seq<AssetEvent>, i: int) -> bool {
    &&& 0 <= i < events.len()
    &&& forall|j: int| i < j < events.len() ==> event_id(#[trigger] events[j]) != event_id(events[i])
}

/// Event `i` is the last of `events` claiming the layout `l`.
pub open spec fn last_claiming(atlases: Map<u64, Atlas>, events: Seq<AssetEvent>, l: u64, i: int) -> bool {
    &&& 0 <= i < events.len()
    &&& claims(atlases, events[i], l)
    &&& forall|j: int| i < j < events.len() ==> !claims(atlases, #[trigger] events[j], l)
}

/// Some event names `a`.
pub open spec fn names(events: Seq<AssetEvent>, a: u64) -> bool {
    exists|i: int| 0 <= i < events.len() && event_id(#[trigger] events[i]) == a
}

/// Some event claims `l`.
pub open spec fn claimed(atlases: Map<u64, Atlas>, events: Seq<AssetEvent>, l: u64) -> bool {
    exists|i: int| 0 <= i < events.len() && #[trigger] claims(atlases, events[i], l)
}

/// Some event counts as a change: a removal, or an event on a loaded atlas
/// with pages.
pub open spec fn counts_change(atlases: Map<u64, Atlas>, events: Seq<AssetEvent>) -> bool {
    exists|i: int|
        0 <= i < events.len() && (is_removal(#[trigger] events[i]) || (atlases.contains_key(event_id(events[i]))
            && atlases[event_id(events[i])].pages@.len() > 0))
}

/// An atlas claiming its pages makes it the owner of exactly their layouts.
proof fn lemma_claim_pages(used: Map<u64, u64>, pages: Seq<(u64, u64)>, id: u64)
    ensures
        forall|l: u64| #[trigger]
            claim_pages(used, pages, id).contains_key(l) == (used.contains_key(l) || in_pages(pages, l)),
        forall|l: u64| #[trigger]
            claim_pages(used, pages, id).contains_key(l) ==> claim_pages(used, pages, id)[l] == if in_pages(
                pages,
                l,
            ) {
                id
            } else {
                used[l]
            },
    decreases pages.len(),
{
    if pages.len() > 0 {
        let d = pages.drop_last();
        lemma_claim_pages(used, d, id);
        assert forall|l: u64| #[trigger] in_pages(pages, l) == (in_pages(d, l) || pages.last().0 == l) by {
            if in_pages(pages, l) {
                let j = choose|j: int| 0 <= j < pages.len() && (#[trigger] pages[j]).0 == l;
                if j < d.len() {
                    assert(d[j] == pages[j]);
                }
            }
            if in_pages(d, l) {
                let j = choose|j: int| 0 <= j < d.len() && (#[trigger] d[j]).0 == l;
                assert(d[j] == pages[j]);
            }
            assert(pages[pages.len() - 1] == pages.last());
        }
        let c = claim_pages(used, pages, id);
        let cd = claim_pages(used, d, id);
        assert(c == cd.insert(pages.last().0, id));
        assert forall|l: u64| #[trigger] c.contains_key(l) == (used.contains_key(l) || in_pages(pages, l)) by {
            assert(in_pages(pages, l) == (in_pages(d, l) || pages.last().0 == l));
            assert(cd.contains_key(l) == (used.contains_key(l) || in_pages(d, l)));
        }
        assert forall|l: u64| #[trigger] c.contains_key(l) implies c[l] == if in_pages(pages, l) {
            id
        } else {
            used[l]
        } by {
            assert(in_pages(pages, l) == (in_pages(d, l) || pages.last().0 == l));
            if l != pages.last().0 {
                assert(cd.contains_key(l));
            }
        }
    } else {
        assert forall|l: u64| !in_pages(pages, l) by {}
    }
}

/// What atlas events do, stated over the events themselves: an atlas whose
/// last event is a removal has no change recorded, one whose last event is
/// any other has its change at `tick`, and an atlas no event names keeps its
/// change; a layout is owned by the atlas of the last event claiming it, and
/// a layout no event claims keeps its owner; and a change is counted exactly
/// where one was before, or some event is a removal or names a loaded atlas
/// with pages.
pub proof fn law_atlas_events(
    atlases: Map<u64, Atlas>,
    events: Seq<AssetEvent>,
    ch: Map<u64, u32>,
    used: Map<u64, u64>,
    has: bool,
    tick: u32,
)
    ensures
        forall|i: int|
            #[trigger] last_naming(events, i) ==> if is_removal(events[i]) {
                !atlas_events_after(atlases, events, (ch, used, has), tick).0.contains_key(event_id(events[i]))
            } else {
                atlas_events_after(atlases, events, (ch, used, has), tick).0.contains_key(event_id(events[i]))
                    && atlas_events_after(atlases, events, (ch, used, has), tick).0[event_id(events[i])] == tick
            },
        forall|a: u64|
            !names(events, a) ==> (#[trigger] atlas_events_after(atlases, events, (ch, used, has), tick).0.contains_key(
                a,
            )) == ch.contains_key(a) && (ch.contains_key(a) ==> atlas_events_after(
                atlases,
                events,
                (ch, used, has),
                tick,
            ).0[a] == ch[a]),
        forall|l: u64, i: int|
            #[trigger] last_claiming(atlases, events, l, i) ==> atlas_events_after(
                atlases,
                events,
                (ch, used, has),
                tick,
            ).1.contains_key(l) && atlas_events_after(atlases, events, (ch, used, has), tick).1[l] == event_id(
                events[i],
            ),
        forall|l: u64|
            !claimed(atlases, events, l) ==> (#[trigger] atlas_events_after(
                atlases,
                events,
                (ch, used, has),
                tick,
            ).1.contains_key(l)) == used.contains_key(l) && (used.contains_key(l) ==> atlas_events_after(
                atlases,
                events,
                (ch, used, has),
                tick,
            ).1[l] == used[l]),
        atlas_events_after(atlases, events, (ch, used, has), tick).2 == (has || counts_change(atlases, events)),
    decreases events.len(),
{
    let r = atlas_events_after(atlases, events, (ch, used, has), tick);
    if events.len() == 0 {
        assert forall|a: u64| !names(events, a) implies (#[trigger] r.0.contains_key(a)) == ch.contains_key(a) && (
        ch.contains_key(a) ==> r.0[a] == ch[a]) by {}
        assert forall|l: u64| !claimed(atlases, events, l) implies (#[trigger] r.1.contains_key(l))
            == used.contains_key(l) && (used.contains_key(l) ==> r.1[l] == used[l]) by {}
        assert(!counts_change(atlases, events));
    } else {
        let d = events.drop_last();
        let n = events.len() - 1;
        let e = events.last();
        let x = event_id(e);
        assert(events[n] == e);
        law_atlas_events(atlases, d, ch, used, has, tick);
        let p = atlas_events_after(atlases, d, (ch, used, has), tick);
        assert(r == atlas_step(atlases, p, e, tick));
        if !is_removal(e) && atlases.contains_key(x) {
            lemma_claim_pages(p.1, atlases[x].pages@, x);
        }
        // Change ticks.
        assert forall|i: int| #[trigger] last_naming(events, i) implies if is_removal(events[i]) {
            !r.0.contains_key(event_id(events[i]))
        } else {
            r.0.contains_key(event_id(events[i])) && r.0[event_id(events[i])] == tick
        } by {
            if i < n {
                assert(event_id(events[n]) != event_id(events[i]));
                assert(d[i] == events[i]);
                assert forall|j: int| i < j < d.len() implies event_id(#[trigger] d[j]) != event_id(d[i]) by {
                    assert(d[j] == events[j]);
                }
                assert(last_naming(d, i));
            }
        }
        assert forall|a: u64| !names(events, a) implies (#[trigger] r.0.contains_key(a)) == ch.contains_key(a) && (
        ch.contains_key(a) ==> r.0[a] == ch[a]) by {
            assert(event_id(events[n]) != a);
            if names(d, a) {
                let i = choose|i: int| 0 <= i < d.len() && event_id(#[trigger] d[i]) == a;
                assert(events[i] == d[i]);
            }
            assert(p.0.contains_key(a) == ch.contains_key(a));
        }
        // Owners.
        assert forall|l: u64, i: int| #[trigger] last_claiming(atlases, events, l, i) implies r.1.contains_key(l)
            && r.1[l] == event_id(events[i]) by {
            if is_removal(e) || !atlases.contains_key(x) {
                assert(r.1 == p.1);
            } else {
                assert(r.1 == claim_pages(p.1, atlases[x].pages@, x));
                assert(r.1.contains_key(l) == (p.1.contains_key(l) || in_pages(atlases[x].pages@, l)));
            }
            if i < n {
                assert(!claims(atlases, events[n], l));
                assert(d[i] == events[i]);
                assert forall|j: int| i < j < d.len() implies !claims(atlases, #[trigger] d[j], l) by {
                    assert(d[j] == events[j]);
                }
                assert(last_claiming(atlases, d, l, i));
                assert(p.1.contains_key(l) && p.1[l] == event_id(events[i]));
                if !is_removal(e) && atlases.contains_key(x) {
                    assert(!has_page(atlases, x, l));
                    assert(!in_pages(atlases[x].pages@, l));
                }
            } else {
                assert(claims(atlases, e, l));
                assert(in_pages(atlases[x].pages@, l));
            }
        }
        assert forall|l: u64| !claimed(atlases, events, l) implies (#[trigger] r.1.contains_key(l))
            == used.contains_key(l) && (used.contains_key(l) ==> r.1[l] == used[l]) by {
            assert(!claims(atlases, events[n], l));
            if is_removal(e) || !atlases.contains_key(x) {
                assert(r.1 == p.1);
            } else {
                assert(r.1 == claim_pages(p.1, atlases[x].pages@, x));
                assert(r.1.contains_key(l) == (p.1.contains_key(l) || in_pages(atlases[x].pages@, l)));
            }
            if claimed(atlases, d, l) {
                let i = choose|i: int| 0 <= i < d.len() && #[trigger] claims(atlases, d[i], l);
                assert(events[i] == d[i]);
            }
            assert(p.1.contains_key(l) == used.contains_key(l));
            if !is_removal(e) && atlases.contains_key(x) {
                assert(!has_page(atlases, x, l));
                assert(!in_pages(atlases[x].pages@, l));
            }
        }
        // Whether a change was counted.
        assert(counts_change(atlases, events) == (counts_change(atlases, d) || is_removal(e) || (atlases.contains_key(x)
            && atlases[x].pages@.len() > 0))) by {
            if counts_change(atlases, events) {
                let i = choose|i: int|
                    0 <= i < events.len() && (is_removal(#[trigger] events[i]) || (atlases.contains_key(
                        event_id(events[i]),
                    ) && atlases[event_id(events[i])].pages@.len() > 0));
                if i < n {
                    assert(d[i] == events[i]);
                }
            }
            if counts_change(atlases, d) {
                let i = choose|i: int|
                    0 <= i < d.len() && (is_removal(#[trigger] d[i]) || (atlases.contains_key(event_id(d[i]))
                        && atlases[event_id(d[i])].pages@.len() > 0));
                assert(events[i] == d[i]);
            }
        }
    }
}

} // verus!

verus! {

/// Looking a sprite up: the lookup fails with `SpriteNotFound` exactly where
/// the path names no sprite, and with `LayoutNotFound` exactly where the
/// sprite's layout is not loaded or has no rectangle at the sprite's index;
/// otherwise it gives the sprite's page, the layout's width and height, the
/// layout's rectangle at the sprite's index and the sprite's cuts.
pub proof fn law_sprite_lookup(sprites: Map<Seq<char>, AtlasSprite>, layouts: Map<u64, AtlasLayout>, path: Seq<char>)
    ensures
        (info_spec(sprites, layouts, path) == Err::<AtlasInfo, AtlasEntryError>(AtlasEntryError::SpriteNotFound))
            == !sprites.contains_key(path),
        (info_spec(sprites, layouts, path) == Err::<AtlasInfo, AtlasEntryError>(AtlasEntryError::LayoutNotFound))
            == (sprites.contains_key(path) && (!layouts.contains_key(sprites[path].layout) || sprites[path].index
            >= layouts[sprites[path].layout].textures@.len())),
        info_spec(sprites, layouts, path) matches Ok(info) ==> {
            let s = sprites[path];
            let l = layouts[s.layout];
            &&& sprites.contains_key(path)
            &&& layouts.contains_key(s.layout)
            &&& s.index < l.textures@.len()
            &&& info.page == Some(s.page)
            &&& info.page_width == l.width
            &&& info.page_height == l.height
            &&& info.rect == l.textures@[s.index as int]
            &&& info.nine_slices == s.nine_slices
        },
{
}

/// The cache of an entry: where the entry's atlas is loaded and its sprite
/// is found, the sprite's info; otherwise the placeholder, which names no
/// page and has an empty page and rectangle and no cuts.
pub proof fn law_entry_cache(e: AtlasEntry, atlases: Map<u64, Atlas>, layouts: Map<u64, AtlasLayout>)
    ensures
        atlases.contains_key(e.atlas) && info_spec(sprite_entries(atlases[e.atlas].sprites), layouts, e.path@) is Ok
            ==> Ok::<AtlasInfo, AtlasEntryError>(entry_info(e, atlases, layouts)) == info_spec(
            sprite_entries(atlases[e.atlas].sprites),
            layouts,
            e.path@,
        ),
        !(atlases.contains_key(e.atlas) && info_spec(sprite_entries(atlases[e.atlas].sprites), layouts, e.path@) is Ok)
            ==> entry_info(e, atlases, layouts) == (AtlasInfo {
            page: None,
            page_width: 0,
            page_height: 0,
            rect: URect { min_x: 0, min_y: 0, max_x: 0, max_y: 0 },
            nine_slices: None,
        }),
{
}

} // verus!
