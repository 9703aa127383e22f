use acme_native::text::{
    Admission, AtlasFormat, FontSystem, GlyphAtlas, GlyphContent, RasterGlyph, RasterImage,
    RasterizedGlyph,
};
use cosmic_text::{Attrs, Buffer, CacheKey, CacheKeyFlags, Family, Metrics, Shaping};

/// Shapes `text` in the default sans-serif face at 16/20 px and scale 1,
/// giving the glyphs to rasterize.
fn raster_glyphs(fonts: &mut FontSystem, text: &str) -> Vec<RasterGlyph> {
    let mut buffer = Buffer::new(&mut fonts.inner, Metrics::new(16.0, 20.0));
    buffer.set_size(&mut fonts.inner, None, None);
    buffer.set_text(&mut fonts.inner, text, Attrs::new().family(Family::SansSerif), Shaping::Advanced);
    let mut out = Vec::new();
    for run in buffer.layout_runs() {
        for glyph in run.glyphs {
            let physical = glyph.physical((0.0, 0.0), 1.0);
            out.push(RasterGlyph { cache_key: physical.cache_key, x: physical.x, y: physical.y });
        }
    }
    out
}

fn key(glyph_id: u16) -> CacheKey {
    CacheKey::new(
        cosmic_text::fontdb::ID::dummy(),
        glyph_id,
        16.0,
        (0.0, 0.0),
        CacheKeyFlags::empty(),
    )
    .0
}

fn image(width: u32, height: u32, content: GlyphContent) -> Option<RasterImage> {
    Some(RasterImage {
        width,
        height,
        left: 1,
        top: 2,
        content,
        pixels: vec![7; (width * height) as usize],
    })
}

#[test]
fn preparation_reuses_atlas_entries() {
    let mut fonts = FontSystem::new();
    let glyphs = raster_glyphs(&mut fonts, "Atlas");
    let mut atlas = GlyphAtlas::new(512, 512);
    let first = fonts.prepare(&glyphs, &mut atlas);
    let second = fonts.prepare(&glyphs, &mut atlas);
    assert!(!first.glyphs.is_empty());
    assert!(!first.uploads.is_empty());
    assert!(second.uploads.is_empty());
    assert_eq!(first.glyphs, second.glyphs);
}

#[test]
fn atlas_clear_forces_reupload_after_recovery() {
    let mut fonts = FontSystem::new();
    let glyphs = raster_glyphs(&mut fonts, "Recover");
    let mut atlas = GlyphAtlas::new(512, 512);

    let first = fonts.prepare(&glyphs, &mut atlas);
    assert!(!first.uploads.is_empty(), "first prepare must upload glyphs");
    let gen_before = atlas.generation();

    let second = fonts.prepare(&glyphs, &mut atlas);
    assert!(second.uploads.is_empty(), "cache hit must not re-upload glyphs");
    assert_eq!(second.atlas_generation, gen_before);

    atlas.clear();
    assert!(atlas.is_empty());
    assert!(atlas.generation() > gen_before, "clear must advance the atlas generation");

    let third = fonts.prepare(&glyphs, &mut atlas);
    assert!(!third.uploads.is_empty(), "post-clear prepare must re-upload glyphs");
    assert!(
        third.atlas_generation > first.atlas_generation,
        "post-clear prepare must report a higher atlas generation"
    );
    assert_eq!(third.glyphs.len(), first.glyphs.len());
}

#[test]
fn new_atlas_is_empty_and_at_least_one_pixel() {
    let atlas = GlyphAtlas::new(0, 7);
    assert_eq!(atlas.dimensions(), (1, 7));
    assert!(atlas.is_empty());
    assert_eq!(atlas.len(), 0);
    assert_eq!(atlas.generation(), 0);
}

#[test]
fn shelf_allocator_places_rows_with_one_pixel_gaps() {
    let mut atlas = GlyphAtlas::new(10, 10);
    let mut uploads = Vec::new();
    let a = atlas.offer(key(1), image(4, 3, GlyphContent::Mask), &mut uploads);
    let b = atlas.offer(key(2), image(4, 2, GlyphContent::Color), &mut uploads);
    let c = atlas.offer(key(3), image(4, 2, GlyphContent::SubpixelMask), &mut uploads);
    match (a, b, c) {
        (Admission::Placed(a), Admission::Placed(b), Admission::Placed(c)) => {
            assert_eq!((a.x, a.y, a.id), (0, 0, 1));
            assert_eq!((b.x, b.y, b.id), (5, 0, 2));
            assert_eq!(b.format, AtlasFormat::Rgba8);
            // 10 + 4 overflows the row: the next row starts below the
            // tallest glyph (3 px) plus a one-pixel gap.
            assert_eq!((c.x, c.y, c.id), (0, 4, 3));
            assert_eq!(c.format, AtlasFormat::Alpha8);
            assert_eq!((a.left, a.top), (1, 2));
        }
        other => panic!("unexpected admissions {other:?}"),
    }
    assert_eq!(uploads.len(), 3);
    assert_eq!((uploads[2].x, uploads[2].y, uploads[2].width, uploads[2].height), (0, 4, 4, 2));
    assert_eq!(uploads[0].pixels.len(), 12);
    assert_eq!(atlas.len(), 3);
}

#[test]
fn offer_refuses_missing_empty_and_oversized_images() {
    let mut atlas = GlyphAtlas::new(8, 8);
    let mut uploads = Vec::new();
    assert_eq!(atlas.offer(key(1), None, &mut uploads), Admission::Missing);
    assert_eq!(atlas.offer(key(2), image(0, 3, GlyphContent::Mask), &mut uploads), Admission::Missing);
    assert_eq!(atlas.offer(key(3), image(9, 1, GlyphContent::Mask), &mut uploads), Admission::Full);
    assert_eq!(atlas.offer(key(4), image(8, 8, GlyphContent::Mask), &mut uploads), Admission::Placed(
        acme_native::text::AtlasEntry {
            id: 1,
            x: 0,
            y: 0,
            width: 8,
            height: 8,
            left: 1,
            top: 2,
            format: AtlasFormat::Alpha8,
        },
    ));
    // The row is full and a new row would start below the texture.
    assert_eq!(atlas.offer(key(5), image(1, 1, GlyphContent::Mask), &mut uploads), Admission::Full);
    assert_eq!(uploads.len(), 1);
    assert_eq!(atlas.len(), 1);
}

#[test]
fn clear_restarts_packing_under_a_new_generation() {
    let mut atlas = GlyphAtlas::new(16, 16);
    let mut uploads = Vec::new();
    atlas.offer(key(1), image(5, 5, GlyphContent::Mask), &mut uploads);
    atlas.clear();
    assert!(atlas.is_empty());
    assert_eq!(atlas.generation(), 1);
    match atlas.offer(key(1), image(5, 5, GlyphContent::Mask), &mut uploads) {
        Admission::Placed(e) => {
            assert_eq!((e.x, e.y), (0, 0));
            assert_eq!(e.id, 2);
        }
        other => panic!("unexpected admission {other:?}"),
    }
}

#[test]
fn prepare_draws_cached_glyphs_from_their_entries() {
    let mut fonts = FontSystem::new();
    let mut atlas = GlyphAtlas::new(64, 64);
    let mut uploads = Vec::new();
    atlas.offer(key(1), image(3, 4, GlyphContent::Mask), &mut uploads);
    let glyphs = vec![RasterGlyph { cache_key: key(1), x: 10, y: 20 }];
    let prepared = fonts.prepare(&glyphs, &mut atlas);
    assert!(prepared.uploads.is_empty());
    assert_eq!(prepared.glyphs.len(), 1);
    let g = prepared.glyphs[0];
    assert_eq!((g.x, g.y), (11, 18));
    assert_eq!((g.width, g.height, g.atlas_x, g.atlas_y, g.atlas_id), (3, 4, 0, 0, 1));
    assert_eq!(fonts.diagnostics().missing_glyphs, 0);
    assert_eq!(atlas.len(), 1);
}

#[test]
fn prepare_counts_glyphs_without_an_image_as_missing() {
    let mut fonts = FontSystem::new();
    let mut atlas = GlyphAtlas::new(64, 64);
    let glyphs = vec![RasterGlyph { cache_key: key(9), x: 0, y: 0 }];
    let prepared = fonts.prepare(&glyphs, &mut atlas);
    assert!(prepared.glyphs.is_empty());
    assert!(prepared.uploads.is_empty());
    assert_eq!(fonts.diagnostics().missing_glyphs, 1);
    assert_eq!(fonts.diagnostics().atlas_full_glyphs, 0);
    assert!(atlas.is_empty());
}

#[test]
fn prepare_in_a_tiny_atlas_counts_glyphs_that_do_not_fit() {
    let mut fonts = FontSystem::new();
    let glyphs = raster_glyphs(&mut fonts, "W");
    let mut atlas = GlyphAtlas::new(1, 1);
    let prepared = fonts.prepare(&glyphs, &mut atlas);
    assert!(prepared.glyphs.is_empty());
    assert!(prepared.uploads.is_empty());
    assert_eq!(fonts.diagnostics().atlas_full_glyphs, glyphs.len());
}

fn rasterized(width: u32, height: u32, format: AtlasFormat) -> RasterizedGlyph {
    RasterizedGlyph { width, height, left: -1, top: 5, format, pixels: vec![3; (width * height * 4) as usize] }
}

#[test]
fn insert_places_glyphs_and_queues_their_uploads() {
    let mut atlas = GlyphAtlas::new(6, 6);
    let mut uploads = Vec::new();
    let a = atlas.insert(key(1), rasterized(3, 2, AtlasFormat::Rgba8), &mut uploads).unwrap();
    assert_eq!((a.id, a.x, a.y, a.width, a.height, a.left, a.top), (1, 0, 0, 3, 2, -1, 5));
    assert_eq!(a.format, AtlasFormat::Rgba8);
    let b = atlas.insert(key(2), rasterized(3, 1, AtlasFormat::Alpha8), &mut uploads).unwrap();
    // 4 + 3 exceeds the width of 6: a new row starts below the first one.
    assert_eq!((b.id, b.x, b.y), (2, 0, 3));
    assert_eq!(uploads.len(), 2);
    assert_eq!((uploads[1].x, uploads[1].y, uploads[1].width, uploads[1].height), (0, 3, 3, 1));
    assert_eq!(uploads[1].format, AtlasFormat::Alpha8);
    assert_eq!(uploads[0].pixels.len(), 24);
    assert_eq!(atlas.len(), 2);
}

#[test]
fn insert_refuses_glyphs_larger_than_the_atlas_or_below_its_last_row() {
    let mut atlas = GlyphAtlas::new(4, 4);
    let mut uploads = Vec::new();
    assert_eq!(atlas.insert(key(1), rasterized(5, 1, AtlasFormat::Alpha8), &mut uploads), None);
    assert!(atlas.insert(key(2), rasterized(4, 3, AtlasFormat::Alpha8), &mut uploads).is_some());
    assert_eq!(atlas.insert(key(3), rasterized(1, 1, AtlasFormat::Alpha8), &mut uploads), None);
    assert_eq!(uploads.len(), 1);
    assert_eq!(atlas.len(), 1);
}
