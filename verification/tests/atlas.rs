use hephae::atlas::blit::{blit_sprite, Placement};
use hephae::atlas::loader::{build_pages, TextureAtlasError, TextureAtlasSettings};
use hephae::atlas::nine::{nine_slice_cuts, NineSliceCuts};
use hephae::atlas::order::{sort_by_key, sort_key, SpriteSource};

fn solid(name: &str, width: u32, height: u32, rgba: [u8; 4]) -> SpriteSource {
    let mut pixels = Vec::new();
    for _ in 0..width * height {
        pixels.extend_from_slice(&rgba);
    }
    SpriteSource { name: String::from(name), width, height, guided: false, pixels }
}

fn settings(init: u32, max: u32) -> TextureAtlasSettings {
    TextureAtlasSettings { init_width: init, init_height: init, max_width: max, max_height: max }
}

#[test]
fn default_settings() {
    let s = TextureAtlasSettings::default();
    assert_eq!(s, settings(1024, 4096));
}

#[test]
fn sort_key_is_perimeter() {
    assert_eq!(sort_key(3, 5, false), 16);
    assert_eq!(sort_key(3, 5, true), 8);
    assert_eq!(sort_key(1, 1, true), 0);
}

#[test]
fn sort_is_stable_by_key() {
    let sprites = vec![
        solid("big", 10, 10, [0; 4]),
        solid("a", 2, 3, [0; 4]),
        solid("small", 1, 1, [0; 4]),
        solid("b", 3, 2, [0; 4]),
    ];
    let names: Vec<String> = sort_by_key(sprites).into_iter().map(|s| s.name).collect();
    assert_eq!(names, vec!["small", "a", "b", "big"]);
}

#[test]
fn nine_slice_guides() {
    // 5x4 image: guide row opaque at x = 2..4, guide column opaque at y = 1.
    let mut pixels = vec![0u8; 5 * 4 * 4];
    for x in [2usize, 3] {
        pixels[x * 4 + 3] = 255;
    }
    pixels[5 * 4 + 3] = 200;
    let cuts = nine_slice_cuts(&pixels, 5, 4);
    assert_eq!(cuts, NineSliceCuts { left: 2, right: 4, top: 1, bottom: 2 });
}

#[test]
fn nine_slice_without_guides() {
    let pixels = vec![0u8; 3 * 3 * 4];
    let cuts = nine_slice_cuts(&pixels, 3, 3);
    assert_eq!(cuts, NineSliceCuts { left: 0, right: 0, top: 2, bottom: 2 });
}

#[test]
fn blit_bleeds_edges() {
    // 2x1 sprite: red, green; placed at (1, 1) on a 4x3 page with one pixel of bleed.
    let source = vec![255, 0, 0, 255, 0, 255, 0, 255];
    let mut page = vec![0u8; 4 * 3 * 4];
    let p = Placement { x: 1, y: 1, width: 2, height: 1, guided: false, bleed: 1 };
    blit_sprite(&mut page, 4, 3, p, &source);
    let px = |x: usize, y: usize| page[(y * 4 + x) * 4..(y * 4 + x) * 4 + 4].to_vec();
    for y in 0..3 {
        assert_eq!(px(0, y), vec![255, 0, 0, 255]);
        assert_eq!(px(1, y), vec![255, 0, 0, 255]);
        assert_eq!(px(2, y), vec![0, 255, 0, 255]);
        assert_eq!(px(3, y), vec![0, 255, 0, 255]);
    }
}

#[test]
fn pages_hold_every_sprite() {
    let sprites = vec![
        solid("a", 10, 10, [1, 2, 3, 4]),
        solid("b", 20, 5, [5, 6, 7, 8]),
        solid("c", 3, 3, [9, 9, 9, 9]),
    ];
    let pages = build_pages(sprites, settings(16, 64), 2, 1).unwrap();
    let mut names: Vec<String> = pages.iter().flat_map(|p| p.sprites.iter().map(|s| s.name.clone())).collect();
    names.sort();
    assert_eq!(names, vec!["a", "b", "c"]);
    for page in &pages {
        assert_eq!(page.pixels.len() as u32, page.width * page.height * 4);
        for s in &page.sprites {
            let r = s.rect;
            assert!(r.min_x >= 2 && r.min_y >= 2);
            assert!(r.max_x + 2 <= page.width && r.max_y + 2 <= page.height);
            let at = ((r.min_y * page.width + r.min_x) * 4) as usize;
            let expected: [u8; 4] = match s.name.as_str() {
                "a" => [1, 2, 3, 4],
                "b" => [5, 6, 7, 8],
                _ => [9, 9, 9, 9],
            };
            assert_eq!(&page.pixels[at..at + 4], &expected);
            assert!(s.nine_slices.is_none());
        }
    }
    // The page grew from 16 to fit the 24-pixel-wide padded sprite.
    assert!(pages[0].width >= 32);
}

#[test]
fn sprite_larger_than_page_is_reported() {
    let sprites = vec![solid("huge", 40, 4, [0; 4]), solid("ok", 2, 2, [0; 4])];
    let err = build_pages(sprites, settings(8, 32), 1, 1).unwrap_err();
    assert_eq!(
        err,
        TextureAtlasError::TooLarge {
            path: String::from("huge"),
            max_width: 32,
            max_height: 32,
            actual_width: 40,
            actual_height: 4,
        }
    );
}

#[test]
fn full_page_starts_another() {
    let sprites = vec![solid("a", 8, 8, [0; 4]), solid("b", 8, 8, [0; 4])];
    let pages = build_pages(sprites, settings(8, 8), 0, 0).unwrap();
    assert_eq!(pages.len(), 2);
    assert_eq!(pages[0].sprites.len(), 1);
    assert_eq!(pages[1].sprites.len(), 1);
}

#[test]
fn guided_sprite_gets_cuts() {
    // 4x4 image with guides: content 3x3, guide row opaque at x = 2, guide column opaque at y = 1..3.
    let mut pixels = vec![0u8; 4 * 4 * 4];
    pixels[2 * 4 + 3] = 255;
    for y in [1usize, 2] {
        pixels[y * 4 * 4 + 3] = 255;
    }
    let sprite = SpriteSource { name: String::from("n"), width: 4, height: 4, guided: true, pixels };
    let pages = build_pages(vec![sprite], settings(16, 16), 1, 0).unwrap();
    let s = &pages[0].sprites[0];
    assert_eq!(s.rect.max_x - s.rect.min_x, 3);
    assert_eq!(s.rect.max_y - s.rect.min_y, 3);
    assert_eq!(s.nine_slices, Some(NineSliceCuts { left: 2, right: 3, top: 1, bottom: 3 }));
}

#[test]
fn empty_input_gives_no_pages() {
    assert!(build_pages(Vec::new(), settings(8, 8), 4, 4).unwrap().is_empty());
}

#[test]
fn two_sprites_two_pages_in_packing_order() {
    let sprites = vec![solid("a", 6, 6, [1; 4]), solid("b", 6, 6, [2; 4])];
    let pages = build_pages(sprites, settings(8, 8), 0, 0).unwrap();
    assert_eq!(pages.len(), 2);
    assert_eq!((pages[0].width, pages[0].height), (8, 8));
    assert_eq!(pages[0].sprites[0].name, "b");
    assert_eq!(pages[1].sprites[0].name, "a");
    for page in &pages {
        let r = page.sprites[0].rect;
        assert_eq!((r.max_x - r.min_x, r.max_y - r.min_y), (6, 6));
    }
}

#[test]
fn too_large_reports_the_sprite_size() {
    let err = build_pages(vec![solid("big", 5, 3, [0; 4])], settings(4, 4), 0, 0).unwrap_err();
    assert_eq!(
        err,
        TextureAtlasError::TooLarge {
            path: String::from("big"),
            max_width: 4,
            max_height: 4,
            actual_width: 5,
            actual_height: 3,
        }
    );
}

#[test]
fn empty_sprite_packs_without_bleeding() {
    let sprites = vec![solid("e", 0, 0, [0; 4]), solid("a", 2, 2, [7; 4])];
    let pages = build_pages(sprites, settings(16, 16), 2, 0).unwrap();
    assert_eq!(pages.len(), 1);
    let e = pages[0].sprites.iter().find(|s| s.name == "e").unwrap();
    assert_eq!((e.rect.max_x - e.rect.min_x, e.rect.max_y - e.rect.min_y), (0, 0));
}

#[test]
fn page_grows_before_another_starts() {
    // Four 4x4 sprites: the page starts at 4x4 and grows to 8x8, which holds all of them.
    let sprites = vec![
        solid("a", 4, 4, [1; 4]),
        solid("b", 4, 4, [2; 4]),
        solid("c", 4, 4, [3; 4]),
        solid("d", 4, 4, [4; 4]),
    ];
    let pages = build_pages(sprites, settings(4, 8), 0, 0).unwrap();
    assert_eq!(pages.len(), 1);
    assert_eq!((pages[0].width, pages[0].height), (8, 8));
    assert_eq!(pages[0].sprites.len(), 4);
}

#[test]
fn fifth_sprite_opens_second_page() {
    let sprites = vec![
        solid("a", 4, 4, [1; 4]),
        solid("b", 4, 4, [2; 4]),
        solid("c", 4, 4, [3; 4]),
        solid("d", 4, 4, [4; 4]),
        solid("e", 4, 4, [5; 4]),
    ];
    let pages = build_pages(sprites, settings(4, 8), 0, 0).unwrap();
    assert_eq!(pages.len(), 2);
    assert_eq!(pages[0].sprites.len(), 4);
    assert_eq!(pages[1].sprites.len(), 1);
    assert_eq!((pages[1].width, pages[1].height), (4, 4));
}
