use std::collections::HashMap as StdMap;

use bevy_platform::collections::HashMap;
use hephae::atlas::cache::{
    detect_changes, update_caches, AssetEvent, Atlas, AtlasChanges, AtlasEntry, AtlasEntryError, AtlasInfo,
    AtlasLayout, AtlasSprite,
};
use hephae::atlas::nine::NineSliceCuts;
use hephae::rect::URect;

const ATLAS: u64 = 7;
const LAYOUT: u64 = 100;
const PAGE: u64 = 200;

fn rect(a: u32, b: u32, c: u32, d: u32) -> URect {
    URect { min_x: a, min_y: b, max_x: c, max_y: d }
}

fn atlas() -> Atlas {
    let mut sprites = HashMap::default();
    sprites.insert(
        "ui/button".to_string(),
        AtlasSprite {
            layout: LAYOUT,
            index: 1,
            page: PAGE,
            nine_slices: Some(NineSliceCuts { left: 2, right: 5, top: 2, bottom: 5 }),
        },
    );
    sprites.insert("ui/icon".to_string(), AtlasSprite { layout: LAYOUT, index: 0, page: PAGE, nine_slices: None });
    sprites.insert("ui/lost".to_string(), AtlasSprite { layout: LAYOUT, index: 9, page: PAGE, nine_slices: None });
    sprites.insert("ui/stray".to_string(), AtlasSprite { layout: 101, index: 0, page: PAGE, nine_slices: None });
    Atlas { pages: vec![(LAYOUT, PAGE)], sprites }
}

fn layouts() -> StdMap<u64, AtlasLayout> {
    let mut m = StdMap::new();
    m.insert(LAYOUT, AtlasLayout { width: 64, height: 32, textures: vec![rect(0, 0, 16, 16), rect(16, 0, 24, 8)] });
    m
}

#[test]
fn sprite_info_is_found() {
    let info = atlas().get_info(&layouts(), "ui/button").unwrap();
    assert_eq!(
        info,
        AtlasInfo {
            page: Some(PAGE),
            page_width: 64,
            page_height: 32,
            rect: rect(16, 0, 24, 8),
            nine_slices: Some(NineSliceCuts { left: 2, right: 5, top: 2, bottom: 5 }),
        }
    );
}

#[test]
fn sprite_lookup_errors() {
    let a = atlas();
    assert_eq!(a.get_info(&layouts(), "ui/none"), Err(AtlasEntryError::SpriteNotFound));
    assert_eq!(a.get_info(&layouts(), "ui/lost"), Err(AtlasEntryError::LayoutNotFound));
    assert_eq!(a.get_info(&layouts(), "ui/stray"), Err(AtlasEntryError::LayoutNotFound));
}

#[test]
fn placeholder_info() {
    let d = AtlasInfo::default();
    assert_eq!(d.page, None);
    assert_eq!((d.page_width, d.page_height), (0, 0));
    assert_eq!(d.rect, rect(0, 0, 0, 0));
    assert_eq!(d.nine_slices, None);
}

#[test]
fn caches_hold_each_entry_in_order() {
    let mut atlases = StdMap::new();
    atlases.insert(ATLAS, atlas());
    let entries = vec![
        AtlasEntry::new(ATLAS, "ui/icon".to_string()),
        AtlasEntry::new(ATLAS, "ui/none".to_string()),
        AtlasEntry::new(8, "ui/icon".to_string()),
        AtlasEntry::new(ATLAS, "ui/button".to_string()),
    ];
    let mut caches = Vec::new();
    update_caches(&entries, &atlases, &layouts(), &mut caches);
    assert_eq!(caches.len(), 4);
    assert_eq!(caches[0].rect, rect(0, 0, 16, 16));
    assert_eq!(caches[1], AtlasInfo::default());
    assert_eq!(caches[2], AtlasInfo::default());
    assert_eq!(caches[3].rect, rect(16, 0, 24, 8));

    // Extra caches from earlier entries go away.
    let mut caches = vec![AtlasInfo::default(); 6];
    update_caches(&entries[..1].to_vec(), &atlases, &layouts(), &mut caches);
    assert_eq!(caches.len(), 1);
    assert_eq!(caches[0].rect, rect(0, 0, 16, 16));
}

#[test]
fn no_entries_no_caches() {
    let atlases = StdMap::new();
    let kept = atlas().get_info(&layouts(), "ui/icon").unwrap();
    let mut caches = vec![kept, kept];
    update_caches(&Vec::new(), &atlases, &layouts(), &mut caches);
    assert!(caches.is_empty());
}

#[test]
fn changes_are_recorded() {
    let mut atlases = StdMap::new();
    atlases.insert(ATLAS, atlas());
    atlases.insert(9, Atlas { pages: Vec::new(), sprites: HashMap::default() });
    let mut changes = AtlasChanges::new();
    let mut used: HashMap<u64, u64> = HashMap::default();

    // A loaded atlas claims its page layouts.
    detect_changes(&atlases, &vec![AssetEvent::LoadedWithDependencies(ATLAS)], &vec![], &mut changes, 3, &mut used);
    assert_eq!(changes.changes.get(&ATLAS), Some(&3));
    assert_eq!(used.get(&LAYOUT), Some(&ATLAS));
    assert_eq!(changes.last_change, 3);

    // A modified layout is a change of the atlas owning it.
    detect_changes(&atlases, &vec![], &vec![AssetEvent::Modified(LAYOUT)], &mut changes, 5, &mut used);
    assert_eq!(changes.changes.get(&ATLAS), Some(&5));
    assert_eq!(changes.last_change, 5);

    // An atlas without pages records its change but is no change of any.
    detect_changes(&atlases, &vec![AssetEvent::Added(9)], &vec![], &mut changes, 6, &mut used);
    assert_eq!(changes.changes.get(&9), Some(&6));
    assert_eq!(changes.last_change, 5);

    // A removed layout forgets its owner; a removed atlas forgets its change.
    detect_changes(&atlases, &vec![AssetEvent::Removed(ATLAS)], &vec![AssetEvent::Unused(LAYOUT)], &mut changes, 8, &mut used);
    assert_eq!(used.get(&LAYOUT), None);
    assert_eq!(changes.changes.get(&ATLAS), None);
    assert_eq!(changes.last_change, 8);

    // Events on layouts no atlas owns change nothing.
    detect_changes(&atlases, &vec![], &vec![AssetEvent::Added(LAYOUT)], &mut changes, 9, &mut used);
    assert_eq!(changes.last_change, 8);
}
