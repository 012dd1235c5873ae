use hephae::text::structure::FontStack;
use hephae::text::atlas::{FontAtlas, FontAtlasKey, FontAtlases, FontLayoutError, GlyphContent, GlyphRaster};

fn mask(width: u32, height: u32, value: u8) -> GlyphRaster {
    GlyphRaster {
        left: 1,
        top: -2,
        width,
        height,
        content: GlyphContent::Mask,
        data: vec![value; (width * height) as usize],
    }
}

#[test]
fn new_atlas_is_empty() {
    let atlas = FontAtlas::new(FontAtlasKey { font_size: 16, antialias: true });
    assert_eq!(atlas.size(), (512, 512));
    assert_eq!(atlas.image_size(), (0, 0));
    assert!(atlas.get_info(&(0, 1, 2, 3, 4, 5)).is_none());
    assert!(atlas.get_info_index(0).is_none());
}

#[test]
fn glyph_is_rasterized_once() {
    let mut atlas = FontAtlas::new(FontAtlasKey { font_size: 16, antialias: true });
    let key = (1, 65, 16, 0, 0, 0);
    let mut calls = 0;
    let first = atlas
        .get_or_create_info(key, || {
            calls += 1;
            Some(mask(3, 2, 100))
        })
        .unwrap();
    let second = atlas
        .get_or_create_info(key, || {
            calls += 1;
            Some(mask(3, 2, 100))
        })
        .unwrap();
    assert_eq!(calls, 1);
    assert_eq!(first, second);
    assert_eq!(first.0, (1, -2));
    assert_eq!(first.2, 0);
    let rect = first.1;
    assert_eq!((rect.max_x - rect.min_x, rect.max_y - rect.min_y), (3, 2));
    assert_eq!(atlas.image_size(), (512, 512));
    let at = ((rect.min_y * 512 + rect.min_x) * 4) as usize;
    assert_eq!(&atlas.pixels()[at..at + 4], &[255, 255, 255, 100]);
    assert_eq!(atlas.get_info(&key), Some(first));
}

#[test]
fn alpha_is_thresholded_without_antialias() {
    let mut atlas = FontAtlas::new(FontAtlasKey { font_size: 16, antialias: false });
    let (_, low, _) = atlas.get_or_create_info((0, 1, 0, 0, 0, 0), || Some(mask(1, 1, 127))).unwrap();
    let (_, high, _) = atlas.get_or_create_info((0, 2, 0, 0, 0, 0), || Some(mask(1, 1, 128))).unwrap();
    let alpha = |r: hephae::rect::URect| atlas.pixels()[((r.min_y * 512 + r.min_x) * 4 + 3) as usize];
    assert_eq!(alpha(low), 0);
    assert_eq!(alpha(high), 255);
}

#[test]
fn color_glyph_keeps_channels() {
    let mut atlas = FontAtlas::new(FontAtlasKey { font_size: 8, antialias: true });
    let g = GlyphRaster { left: 0, top: 0, width: 1, height: 1, content: GlyphContent::Color, data: vec![10, 20, 30, 40] };
    let (_, r, _) = atlas.get_or_create_info((9, 9, 9, 9, 9, 9), || Some(g)).unwrap();
    let at = ((r.min_y * 512 + r.min_x) * 4) as usize;
    assert_eq!(&atlas.pixels()[at..at + 4], &[10, 20, 30, 40]);
}

#[test]
fn empty_glyph_takes_no_room() {
    let mut atlas = FontAtlas::new(FontAtlasKey { font_size: 8, antialias: true });
    let info = atlas.get_or_create_info((0, 32, 0, 0, 0, 0), || Some(mask(0, 5, 0))).unwrap();
    assert_eq!(info.1, hephae::rect::URect { min_x: 0, min_y: 0, max_x: 0, max_y: 5 });
    assert_eq!(atlas.image_size(), (0, 0));
    assert_eq!(atlas.get_info_index(0), Some(((1, -2), info.1)));
}

#[test]
fn missing_raster_is_an_error() {
    let mut atlas = FontAtlas::new(FontAtlasKey { font_size: 8, antialias: true });
    let key = (3, 3, 3, 3, 3, 3);
    assert_eq!(atlas.get_or_create_info(key, || None), Err(FontLayoutError::NoGlyphImage(key)));
    assert!(atlas.get_info(&key).is_none());
}

#[test]
fn atlas_grows_and_keeps_pixels() {
    let mut atlas = FontAtlas::new(FontAtlasKey { font_size: 64, antialias: true });
    let (_, small, _) = atlas.get_or_create_info((0, 0, 0, 0, 0, 1), || Some(mask(4, 4, 77))).unwrap();
    let (_, big, _) = atlas.get_or_create_info((0, 0, 0, 0, 0, 2), || Some(mask(600, 10, 200))).unwrap();
    let (w, h) = atlas.size();
    assert!(w >= 602 && h >= 12);
    assert_eq!(atlas.image_size(), (w, h));
    let at = ((small.min_y * w + small.min_x) * 4 + 3) as usize;
    assert_eq!(atlas.pixels()[at], 77);
    let at = ((big.min_y * w + big.min_x) * 4 + 3) as usize;
    assert_eq!(atlas.pixels()[at], 200);
}

#[test]
fn font_stack_inherits_by_depth() {
    let mut stack: FontStack<u8> = FontStack::new();
    // The root has its own font; its spans have none and get the default.
    assert_eq!(stack.resolve(0, Some(7), 0), 7);
    assert_eq!(stack.resolve(1, None, 0), 0);
    assert_eq!(stack.resolve(2, None, 9), 0);
    assert_eq!(stack.resolve(1, None, 5), 5);
    assert_eq!(stack.resolve(1, Some(3), 5), 3);
}

#[test]
fn font_atlases_are_made_once_per_key() {
    let mut registry = FontAtlases::new();
    let mut store = Vec::new();
    let small = FontAtlasKey { font_size: 16, antialias: true };
    let sharp = FontAtlasKey { font_size: 16, antialias: false };
    assert_eq!(registry.atlas_mut(small, &mut store), 0);
    assert_eq!(registry.atlas_mut(sharp, &mut store), 1);
    assert_eq!(registry.atlas_mut(small, &mut store), 0);
    assert_eq!(store.len(), 2);
    assert_eq!(store[1].size(), (512, 512));
}
