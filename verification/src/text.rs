//! Text-shaping vocabulary, and the glyph atlas: the shelf allocator that
//! places rasterized glyphs in a renderer-owned texture, and the
//! preparation of shaped glyphs against it.
use cosmic_text::{CacheKey, FontSystem as CosmicFontSystem, SwashCache, SwashContent};
use std::collections::HashMap;
use vstd::prelude::*;

verus! {

/// How shaped text wraps.
#[derive(Clone, Copy, Debug, Eq, PartialEq, Structural)]
pub enum TextWrap {
    /// No wrapping.
    NoWrap,
    Word,
    Glyph,
    WordOrGlyph,
}

/// Pixel format of a glyph atlas.
#[derive(Clone, Copy, Debug, Eq, Hash, PartialEq, Structural)]
pub enum AtlasFormat {
    Alpha8,
    Rgba8,
}

/// A rectangle of pixels to copy into a glyph atlas.
#[derive(Clone, Debug, Eq, PartialEq)]
pub struct AtlasUpload {
    pub x: u32,
    pub y: u32,
    pub width: u32,
    pub height: u32,
    pub format: AtlasFormat,
    pub pixels: Vec<u8>,
}

/// Counters describing how font fallback went.
#[derive(Clone, Debug, Default, Eq, PartialEq)]
pub struct FallbackDiagnostics {
    pub system_faces: usize,
    pub distinct_fonts_used: usize,
    pub missing_glyphs: usize,
    pub atlas_full_glyphs: usize,
    pub used_multiple_fonts: bool,
}

/// The rasterizer's key for one glyph image.
#[verifier::external_type_specification]
#[verifier::external_body]
pub struct ExCacheKey(cosmic_text::CacheKey);

/// Where a glyph lives in the atlas, and how it sits on its pen position.
#[derive(Clone, Copy, Debug, PartialEq, Eq, Structural)]
pub struct AtlasEntry {
    pub id: u64,
    pub x: u32,
    pub y: u32,
    pub width: u32,
    pub height: u32,
    pub left: i32,
    pub top: i32,
    pub format: AtlasFormat,
}

/// What the rasterizer made of a glyph's outline.
#[derive(Clone, Copy, Debug, PartialEq, Eq, Structural)]
pub enum GlyphContent {
    Mask,
    SubpixelMask,
    Color,
}

/// A rasterized glyph image.
#[derive(Clone, Debug, PartialEq, Eq)]
pub struct RasterImage {
    pub width: u32,
    pub height: u32,
    pub left: i32,
    pub top: i32,
    pub content: GlyphContent,
    pub pixels: Vec<u8>,
}

/// A rasterized glyph image, in the atlas format it is stored in.
#[derive(Clone, Debug, PartialEq, Eq)]
pub struct RasterizedGlyph {
    pub width: u32,
    pub height: u32,
    pub left: i32,
    pub top: i32,
    pub format: AtlasFormat,
    pub pixels: Vec<u8>,
}

/// What became of a glyph offered to the atlas.
#[derive(Clone, Copy, Debug, PartialEq, Eq, Structural)]
pub enum Admission {
    /// Placed in the atlas under a new entry.
    Placed(AtlasEntry),
    /// The rasterizer gave no image, or an empty one.
    Missing,
    /// The atlas has no room left for it.
    Full,
}

/// The atlas format a glyph image is stored in.
pub open spec fn format_of(c: GlyphContent) -> AtlasFormat {
    match c {
        GlyphContent::Color => AtlasFormat::Rgba8,
        _ => AtlasFormat::Alpha8,
    }
}

/// The shelf allocator's cursor: where the next glyph goes on the current
/// row, and the height of the tallest glyph placed on that row.
#[derive(Clone, Copy, Debug, PartialEq, Eq, Structural)]
pub struct ShelfCursor {
    pub x: u32,
    pub y: u32,
    pub row_height: u32,
}

/// Placing a `w` by `h` glyph in an `aw` by `ah` atlas from cursor `c`:
/// a glyph larger than the atlas is refused; one that does not fit the rest
/// of the row starts a new row one pixel below the tallest glyph of the
/// current one; it is placed where the cursor then stands if it fits
/// below, the cursor moving one pixel past it. Gives the new cursor and
/// the place, if any.
pub open spec fn shelf_place(c: ShelfCursor, aw: u32, ah: u32, w: u32, h: u32) -> (ShelfCursor, Option<(u32, u32)>) {
    if w > aw || h > ah {
        (c, None)
    } else {
        let c1 = if c.x + w > aw {
            ShelfCursor { x: 0, y: c.y.saturating_add((c.row_height + 1) as u32), row_height: 0 }
        } else {
            c
        };
        if c1.y + h > ah {
            (c1, None)
        } else {
            (
                ShelfCursor {
                    x: (c1.x + w + 1) as u32,
                    y: c1.y,
                    row_height: if c1.row_height >= h { c1.row_height } else { h },
                },
                Some((c1.x, c1.y)),
            )
        }
    }
}

/// What the atlas makes of an image offered with its cursor at `c`, the
/// next entry id `id`, in an `aw` by `ah` texture: no image or an empty one
/// is `Missing`; otherwise the shelf allocator places it under `id`, or
/// refuses it as `Full`. Gives the new cursor and the admission.
pub open spec fn admission_of(c: ShelfCursor, id: u64, aw: u32, ah: u32, image: Option<RasterImage>) -> (ShelfCursor, Admission) {
    match image {
        Some(img) if img.width > 0 && img.height > 0 => {
            let placed = shelf_place(c, aw, ah, img.width, img.height);
            match placed.1 {
                Some((x, y)) => (
                    placed.0,
                    Admission::Placed(
                        AtlasEntry {
                            id,
                            x,
                            y,
                            width: img.width,
                            height: img.height,
                            left: img.left,
                            top: img.top,
                            format: format_of(img.content),
                        },
                    ),
                ),
                None => (placed.0, Admission::Full),
            }
        },
        _ => (c, Admission::Missing),
    }
}

/// The upload that copies the pixels of `img` to the place of `e`.
pub open spec fn upload_of(e: AtlasEntry, img: RasterImage) -> AtlasUpload {
    AtlasUpload { x: e.x, y: e.y, width: e.width, height: e.height, format: e.format, pixels: img.pixels }
}

/// Placing a `w` by `h` glyph in an `aw` by `ah` atlas from cursor `c`
/// stays within the range of 32-bit unsigned arithmetic: the width test,
/// the start of a new row (without reaching the bound at which that
/// addition saturates), the test below it and the advance of the cursor.
pub open spec fn insert_in_range(c: ShelfCursor, aw: u32, ah: u32, w: u32, h: u32) -> bool {
    w > aw || h > ah || {
        let wrap = c.x + w > aw;
        let y1: int = if wrap {
            c.y + c.row_height + 1
        } else {
            c.y as int
        };
        let x1: int = if wrap {
            0
        } else {
            c.x as int
        };
        &&& c.x + w <= 0xFFFF_FFFF
        &&& wrap ==> c.y + c.row_height + 1 <= 0xFFFF_FFFF
        &&& y1 + h <= 0xFFFF_FFFF
        &&& y1 + h <= ah ==> x1 + w + 1 <= 0xFFFF_FFFF
    }
}

/// Two entries do not overlap.
pub open spec fn disjoint(a: AtlasEntry, b: AtlasEntry) -> bool {
    ||| a.x + a.width <= b.x
    ||| b.x + b.width <= a.x
    ||| a.y + a.height <= b.y
    ||| b.y + b.height <= a.y
}

/// An entry lies within a `w` by `h` atlas.
pub open spec fn inside(e: AtlasEntry, w: u32, h: u32) -> bool {
    e.x + e.width <= w && e.y + e.height <= h
}

/// An entry lies above the cursor's row, or on it left of the cursor and
/// no taller than the row.
pub open spec fn behind(e: AtlasEntry, c: ShelfCursor) -> bool {
    e.y + e.height < c.y || (e.y == c.y && e.x + e.width < c.x && e.height <= c.row_height)
}

/// The atlas's entries, by glyph key, in a private field; `entry_map`
/// describes what it holds.
#[verifier::external_body]
pub struct EntryMap {
    inner: HashMap<CacheKey, AtlasEntry>,
}

/// The entries that an entry map holds.
pub uninterp spec fn entry_map(m: EntryMap) -> Map<CacheKey, AtlasEntry>;

/// `HashMap::new`: an empty map.
#[verifier::external_body]
fn entry_map_new() -> (r: EntryMap)
    ensures
        entry_map(r).dom().is_empty(),
{
    EntryMap { inner: HashMap::new() }
}

/// `HashMap::get`: the entry under `key`, if any (`CacheKey` compares and
/// hashes all of its fields).
#[verifier::external_body]
fn entry_map_get(m: &EntryMap, key: &CacheKey) -> (r: Option<AtlasEntry>)
    ensures
        r == entry_map(*m).get(*key),
{
    m.inner.get(key).copied()
}

/// `HashMap::insert`: stores `e` under `key`.
#[verifier::external_body]
fn entry_map_insert(m: &mut EntryMap, key: CacheKey, e: AtlasEntry)
    ensures
        entry_map(*final(m)) == entry_map(*old(m)).insert(key, e),
{
    m.inner.insert(key, e);
}

/// `HashMap::clear`: removes every entry.
#[verifier::external_body]
fn entry_map_clear(m: &mut EntryMap)
    ensures
        entry_map(*final(m)).dom().is_empty(),
{
    m.inner.clear()
}

/// `HashMap::len`: the number of entries.
#[verifier::external_body]
fn entry_map_len(m: &EntryMap) -> (r: usize)
    ensures
        r == entry_map(*m).len(),
{
    m.inner.len()
}

/// CPU-side shelf allocator bookkeeping for a renderer-owned texture.
pub struct GlyphAtlas {
    width: u32,
    height: u32,
    cursor_x: u32,
    cursor_y: u32,
    row_height: u32,
    generation: u64,
    next_id: u64,
    entries: EntryMap,
}

impl GlyphAtlas {
    /// The placed glyphs, by key.
    pub closed spec fn entries(&self) -> Map<CacheKey, AtlasEntry> {
        entry_map(self.entries)
    }

    /// Width and height of the texture, in pixels.
    pub closed spec fn size(&self) -> (u32, u32) {
        (self.width, self.height)
    }

    /// How many times the atlas was cleared, wrapping.
    pub closed spec fn gen(&self) -> u64 {
        self.generation
    }

    /// The allocator's cursor.
    pub closed spec fn cursor(&self) -> ShelfCursor {
        ShelfCursor { x: self.cursor_x, y: self.cursor_y, row_height: self.row_height }
    }

    /// The id the next placed glyph gets.
    pub closed spec fn next_entry_id(&self) -> u64 {
        self.next_id
    }

    /// Every placed glyph lies inside the texture, no two overlap, and all
    /// of them lie above the current row or left of the cursor on it.
    pub closed spec fn wf(&self) -> bool {
        &&& self.width >= 1
        &&& self.height >= 1
        &&& self.cursor_x <= self.width + 1
        &&& self.cursor_y <= self.height + 1
        &&& self.row_height <= self.height
        &&& self.cursor_x > 0 ==> self.cursor_y + self.row_height <= self.height
        &&& self.cursor_x == 0 ==> self.row_height == 0
        &&& self.entries().dom().finite()
        &&& forall|k: CacheKey| #[trigger]
            self.entries().dom().contains(k) ==> {
                let e = self.entries()[k];
                &&& inside(e, self.width, self.height)
                &&& behind(e, self.cursor())
            }
        &&& forall|k1: CacheKey, k2: CacheKey|
            #![trigger self.entries()[k1], self.entries()[k2]]
            self.entries().dom().contains(k1) && self.entries().dom().contains(k2) && k1 != k2 ==> disjoint(
                self.entries()[k1],
                self.entries()[k2],
            )
    }

    /// An empty atlas for a `width` by `height` texture (each at least 1).
    pub fn new(width: u32, height: u32) -> (r: Self)
        ensures
            r.wf(),
            r.size() == (if width >= 1 { width } else { 1u32 }, if height >= 1 { height } else { 1u32 }),
            r.entries().dom().is_empty(),
            r.gen() == 0,
            r.cursor() == (ShelfCursor { x: 0, y: 0, row_height: 0 }),
            r.next_entry_id() == 1,
    {
        GlyphAtlas {
            width: if width >= 1 { width } else { 1 },
            height: if height >= 1 { height } else { 1 },
            cursor_x: 0,
            cursor_y: 0,
            row_height: 0,
            generation: 0,
            next_id: 1,
            entries: entry_map_new(),
        }
    }

    /// Width and height of the texture.
    pub fn dimensions(&self) -> (r: (u32, u32))
        ensures
            r == self.size(),
    {
        (self.width, self.height)
    }

    /// The atlas generation, which advances on every clear.
    pub fn generation(&self) -> (r: u64)
        ensures
            r == self.gen(),
    {
        self.generation
    }

    /// The number of placed glyphs.
    pub fn len(&self) -> (r: usize)
        ensures
            r == self.entries().len(),
    {
        entry_map_len(&self.entries)
    }

    /// Whether no glyph is placed.
    pub fn is_empty(&self) -> (r: bool)
        ensures
            r == (self.entries().len() == 0),
    {
        entry_map_len(&self.entries) == 0
    }

    /// Forgets every placed glyph and starts packing from the top left
    /// again, under the next generation.
    pub fn clear(&mut self)
        requires
            old(self).wf(),
        ensures
            final(self).wf(),
            final(self).size() == old(self).size(),
            final(self).entries().dom().is_empty(),
            final(self).gen() == old(self).gen().wrapping_add(1),
            final(self).cursor() == (ShelfCursor { x: 0, y: 0, row_height: 0 }),
            final(self).next_entry_id() == old(self).next_entry_id(),
    {
        entry_map_clear(&mut self.entries);
        self.cursor_x = 0;
        self.cursor_y = 0;
        self.row_height = 0;
        self.generation = self.generation.wrapping_add(1);
    }

    /// Places `glyph` under `key`, which the atlas does not hold yet, where
    /// the shelf allocator puts it, and queues its upload on `uploads`; or
    /// refuses it, changing nothing but the cursor, when it does not fit.
    pub fn insert(&mut self, key: CacheKey, glyph: RasterizedGlyph, uploads: &mut Vec<AtlasUpload>) -> (r: Option<AtlasEntry>)
        requires
            old(self).wf(),
            insert_in_range(old(self).cursor(), old(self).size().0, old(self).size().1, glyph.width, glyph.height),
            !old(self).entries().dom().contains(key),
        ensures
            final(self).wf(),
            final(self).size() == old(self).size(),
            final(self).gen() == old(self).gen(),
            ({
                let placed = shelf_place(old(self).cursor(), old(self).size().0, old(self).size().1, glyph.width, glyph.height);
                &&& final(self).cursor() == placed.0
                &&& match placed.1 {
                    Some((x, y)) => {
                        let e = AtlasEntry {
                            id: old(self).next_entry_id(),
                            x,
                            y,
                            width: glyph.width,
                            height: glyph.height,
                            left: glyph.left,
                            top: glyph.top,
                            format: glyph.format,
                        };
                        &&& r == Some(e)
                        &&& final(self).entries() == old(self).entries().insert(key, e)
                        &&& final(self).next_entry_id() == old(self).next_entry_id().wrapping_add(1)
                        &&& final(uploads)@ == old(uploads)@.push(AtlasUpload {
                            x,
                            y,
                            width: glyph.width,
                            height: glyph.height,
                            format: glyph.format,
                            pixels: glyph.pixels,
                        })
                    },
                    None => {
                        &&& r.is_none()
                        &&& final(self).entries() == old(self).entries()
                        &&& final(self).next_entry_id() == old(self).next_entry_id()
                        &&& final(uploads)@ == old(uploads)@
                    },
                }
            }),
    {
        let RasterizedGlyph { width, height, left, top, format, pixels } = glyph;
        if width > self.width || height > self.height {
            return None;
        }
        if self.cursor_x + width > self.width {
            let ghost c0 = self.cursor();
            self.cursor_x = 0;
            self.cursor_y = self.cursor_y.saturating_add(self.row_height + 1);
            self.row_height = 0;
            proof {
                assert forall|k: CacheKey| #[trigger] self.entries().dom().contains(k) implies behind(
                    self.entries()[k],
                    self.cursor(),
                ) by {
                    assert(behind(self.entries()[k], c0));
                }
            }
        }
        if self.cursor_y + height > self.height {
            return None;
        }
        let entry = AtlasEntry {
            id: self.next_id,
            x: self.cursor_x,
            y: self.cursor_y,
            width,
            height,
            left,
            top,
            format,
        };
        let ghost before = self.entries();
        let ghost c1 = self.cursor();
        self.next_id = self.next_id.wrapping_add(1);
        self.cursor_x = self.cursor_x + width + 1;
        if height > self.row_height {
            self.row_height = height;
        }
        entry_map_insert(&mut self.entries, key, entry);
        proof {
            assert(self.entries().dom() == before.dom().insert(key));
            assert forall|k: CacheKey| #[trigger] self.entries().dom().contains(k) implies inside(
                self.entries()[k],
                self.width,
                self.height,
            ) && behind(self.entries()[k], self.cursor()) by {
                if k != key {
                    assert(before.dom().contains(k));
                    assert(behind(before[k], c1));
                }
            }
            assert forall|k1: CacheKey, k2: CacheKey|
                self.entries().dom().contains(k1) && self.entries().dom().contains(k2) && k1 != k2 implies
                disjoint(self.entries()[k1], self.entries()[k2]) by {
                if k1 != key && k2 != key {
                    assert(before.dom().contains(k1) && before.dom().contains(k2));
                    assert(disjoint(before[k1], before[k2]));
                } else if k1 == key {
                    assert(before.dom().contains(k2));
                    assert(before.dom().contains(k2) ==> (before[k2].y + before[k2].height < entry.y || (before[k2].y == entry.y && before[k2].x + before[k2].width < entry.x)));
                } else {
                    assert(before.dom().contains(k1));
                    assert(before.dom().contains(k1) ==> (before[k1].y + before[k1].height < entry.y || (before[k1].y == entry.y && before[k1].x + before[k1].width < entry.x)));
                }
            }
        }
        uploads.push(AtlasUpload { x: entry.x, y: entry.y, width, height, format, pixels });
        Some(entry)
    }

    /// Offers the rasterizer's image of the glyph `key`, which the atlas
    /// does not hold yet: no image or an empty one is `Missing`; an image
    /// is placed where the shelf allocator puts it, with its upload queued
    /// on `uploads`, or refused as `Full`.
    pub fn offer(&mut self, key: CacheKey, image: Option<RasterImage>, uploads: &mut Vec<AtlasUpload>) -> (r: Admission)
        requires
            old(self).wf(),
            (image matches Some(img) && img.width > 0 && img.height > 0) ==> insert_in_range(
                old(self).cursor(),
                old(self).size().0,
                old(self).size().1,
                image->Some_0.width,
                image->Some_0.height,
            ),
            !old(self).entries().dom().contains(key),
        ensures
            final(self).wf(),
            final(self).size() == old(self).size(),
            final(self).gen() == old(self).gen(),
            ({
                let (c, a) = admission_of(old(self).cursor(), old(self).next_entry_id(), old(self).size().0, old(self).size().1, image);
                &&& final(self).cursor() == c
                &&& r == a
                &&& match a {
                    Admission::Placed(e) => {
                        &&& final(self).entries() == old(self).entries().insert(key, e)
                        &&& final(self).next_entry_id() == old(self).next_entry_id().wrapping_add(1)
                        &&& final(uploads)@ == old(uploads)@.push(upload_of(e, image.unwrap()))
                    },
                    _ => {
                        &&& final(self).entries() == old(self).entries()
                        &&& final(self).next_entry_id() == old(self).next_entry_id()
                        &&& final(uploads)@ == old(uploads)@
                    },
                }
            }),
    {
        let img = match image {
            Some(img) => img,
            None => {
                return Admission::Missing;
            },
        };
        if img.width == 0 || img.height == 0 {
            return Admission::Missing;
        }
        let format = match img.content {
            GlyphContent::Color => AtlasFormat::Rgba8,
            _ => AtlasFormat::Alpha8,
        };
        let glyph = RasterizedGlyph {
            width: img.width,
            height: img.height,
            left: img.left,
            top: img.top,
            format,
            pixels: img.pixels,
        };
        match self.insert(key, glyph, uploads) {
            Some(e) => Admission::Placed(e),
            None => Admission::Full,
        }
    }
}

/// In a well-formed atlas whose sides are below 2^31 pixels, placing a
/// glyph of any size stays within range.
pub proof fn lemma_small_atlas_in_range(a: GlyphAtlas, w: u32, h: u32)
    requires
        a.wf(),
        a.size().0 < 0x8000_0000,
        a.size().1 < 0x8000_0000,
    ensures
        insert_in_range(a.cursor(), a.size().0, a.size().1, w, h),
{
}

/// Placed glyphs stay inside the texture, and no two of them overlap.
pub proof fn lemma_placed_glyphs_disjoint(a: GlyphAtlas, k1: CacheKey, k2: CacheKey)
    requires
        a.wf(),
        a.entries().dom().contains(k1),
        a.entries().dom().contains(k2),
    ensures
        inside(a.entries()[k1], a.size().0, a.size().1),
        k1 != k2 ==> disjoint(a.entries()[k1], a.entries()[k2]),
{
}

/// The font database and rasterizer of the text system.
#[verifier::external_type_specification]
#[verifier::external_body]
pub struct ExCosmicFontSystem(CosmicFontSystem);

/// The glyph rasterizer's scratch state and image cache.
#[verifier::external_type_specification]
#[verifier::external_body]
pub struct ExSwashCache(cosmic_text::SwashCache);

/// A shaped glyph to rasterize: its rasterizer key and its pen position in
/// physical pixels.
#[derive(Clone, Copy, Debug)]
pub struct RasterGlyph {
    pub cache_key: CacheKey,
    pub x: i32,
    pub y: i32,
}

/// A glyph ready to draw from the atlas.
#[derive(Clone, Copy, Debug, PartialEq, Eq, Structural)]
pub struct PreparedGlyph {
    pub atlas_id: u64,
    pub x: i32,
    pub y: i32,
    pub width: u32,
    pub height: u32,
    pub atlas_x: u32,
    pub atlas_y: u32,
    pub format: AtlasFormat,
}

/// Glyphs ready to draw, and the atlas uploads they need first.
#[derive(Clone, Debug, PartialEq)]
pub struct PreparedText {
    pub atlas_generation: u64,
    pub glyphs: Vec<PreparedGlyph>,
    pub uploads: Vec<AtlasUpload>,
}

/// The glyph `g` drawn from the atlas entry `e`: the image's offset moves
/// the pen position (wrapping, as release builds do).
pub open spec fn prepared(g: RasterGlyph, e: AtlasEntry) -> PreparedGlyph {
    PreparedGlyph {
        atlas_id: e.id,
        x: g.x.wrapping_add(e.left),
        y: g.y.wrapping_sub(e.top),
        width: e.width,
        height: e.height,
        atlas_x: e.x,
        atlas_y: e.y,
        format: e.format,
    }
}

/// The glyphs drawn from `gs`: those marked in `picked`, in order, each
/// from its entry in `m`.
pub open spec fn emitted(gs: Seq<RasterGlyph>, picked: Seq<bool>, m: Map<CacheKey, AtlasEntry>) -> Seq<PreparedGlyph>
    decreases gs.len(),
{
    if gs.len() == 0 {
        Seq::empty()
    } else {
        let rest = emitted(gs.drop_last(), picked.drop_last(), m);
        if picked.last() {
            rest.push(prepared(gs.last(), m[gs.last().cache_key]))
        } else {
            rest
        }
    }
}

/// Where preparation stands after some glyphs: the atlas's cursor, next
/// entry id and entries, the glyphs to draw and the uploads so far, and
/// the glyphs counted as missing and as not fitting.
pub struct PrepState {
    pub cursor: ShelfCursor,
    pub next_id: u64,
    pub entries: Map<CacheKey, AtlasEntry>,
    pub glyphs: Seq<PreparedGlyph>,
    pub uploads: Seq<AtlasUpload>,
    pub missing: nat,
    pub full: nat,
}

/// Preparation starting on the atlas `a`, with nothing drawn or counted.
pub open spec fn prep_start(a: GlyphAtlas) -> PrepState {
    PrepState {
        cursor: a.cursor(),
        next_id: a.next_entry_id(),
        entries: a.entries(),
        glyphs: Seq::empty(),
        uploads: Seq::empty(),
        missing: 0,
        full: 0,
    }
}

/// One glyph `g` of preparation in an `aw` by `ah` atlas. A glyph the atlas
/// holds is drawn from its entry. Any other is offered with `image`, what
/// the rasterizer gave for it: placed, it is drawn and uploaded; without
/// an image it counts as missing; and when it is not drawn, it counts as
/// not fitting if the rasterizer reports an image for it (`has`).
pub open spec fn prep_step(aw: u32, ah: u32, s: PrepState, g: RasterGlyph, image: Option<RasterImage>, has: bool) -> PrepState {
    if s.entries.dom().contains(g.cache_key) {
        PrepState {
            cursor: s.cursor,
            next_id: s.next_id,
            entries: s.entries,
            glyphs: s.glyphs.push(prepared(g, s.entries[g.cache_key])),
            uploads: s.uploads,
            missing: s.missing,
            full: s.full,
        }
    } else {
        let (c, a) = admission_of(s.cursor, s.next_id, aw, ah, image);
        let full = if has { s.full + 1 } else { s.full };
        match a {
            Admission::Placed(e) => PrepState {
                cursor: c,
                next_id: s.next_id.wrapping_add(1),
                entries: s.entries.insert(g.cache_key, e),
                glyphs: s.glyphs.push(prepared(g, e)),
                uploads: s.uploads.push(upload_of(e, image.unwrap())),
                missing: s.missing,
                full: s.full,
            },
            Admission::Missing => PrepState {
                cursor: c,
                next_id: s.next_id,
                entries: s.entries,
                glyphs: s.glyphs,
                uploads: s.uploads,
                missing: s.missing + 1,
                full,
            },
            Admission::Full => PrepState {
                cursor: c,
                next_id: s.next_id,
                entries: s.entries,
                glyphs: s.glyphs,
                uploads: s.uploads,
                missing: s.missing,
                full,
            },
        }
    }
}

/// Preparation of the glyphs `gs` in order from `s0`, the `i`th glyph with
/// the rasterizer's `images[i]` and `has[i]`.
pub open spec fn prep_fold(
    aw: u32,
    ah: u32,
    s0: PrepState,
    gs: Seq<RasterGlyph>,
    images: Seq<Option<RasterImage>>,
    has: Seq<bool>,
) -> PrepState
    decreases gs.len(),
{
    if gs.len() == 0 {
        s0
    } else {
        prep_step(
            aw,
            ah,
            prep_fold(aw, ah, s0, gs.drop_last(), images.drop_last(), has.drop_last()),
            gs.last(),
            images.last(),
            has.last(),
        )
    }
}

/// `m2` holds every entry of `m1`, unchanged.
pub open spec fn extends(m2: Map<CacheKey, AtlasEntry>, m1: Map<CacheKey, AtlasEntry>) -> bool {
    forall|k: CacheKey| #[trigger] m1.dom().contains(k) ==> m2.dom().contains(k) && m2[k] == m1[k]
}

/// Drawing from a map that holds more entries, the old ones unchanged,
/// gives the same glyphs.
proof fn lemma_emitted_extends(gs: Seq<RasterGlyph>, picked: Seq<bool>, m1: Map<CacheKey, AtlasEntry>, m2: Map<CacheKey, AtlasEntry>)
    requires
        picked.len() == gs.len(),
        extends(m2, m1),
        forall|j: int| 0 <= j < gs.len() && #[trigger] picked[j] ==> m1.dom().contains(gs[j].cache_key),
    ensures
        emitted(gs, picked, m1) == emitted(gs, picked, m2),
    decreases gs.len(),
{
    if gs.len() > 0 {
        lemma_emitted_extends(gs.drop_last(), picked.drop_last(), m1, m2);
        if picked.last() {
            assert(picked[gs.len() - 1]);
        }
    }
}

/// No more glyphs are drawn than given, and all of them only when each
/// one is marked.
proof fn lemma_emitted_len(gs: Seq<RasterGlyph>, picked: Seq<bool>, m: Map<CacheKey, AtlasEntry>)
    requires
        picked.len() == gs.len(),
    ensures
        emitted(gs, picked, m).len() <= gs.len(),
        emitted(gs, picked, m).len() == gs.len() ==> forall|j: int| 0 <= j < gs.len() ==> #[trigger] picked[j],
    decreases gs.len(),
{
    if gs.len() > 0 {
        lemma_emitted_len(gs.drop_last(), picked.drop_last(), m);
        if emitted(gs, picked, m).len() == gs.len() {
            assert forall|j: int| 0 <= j < gs.len() implies #[trigger] picked[j] by {
                if j < gs.len() - 1 {
                    assert(picked.drop_last()[j] == picked[j]);
                }
            }
        }
    }
}

/// When every glyph is drawn, each one is drawn from its own entry.
proof fn lemma_emitted_all(gs: Seq<RasterGlyph>, picked: Seq<bool>, m: Map<CacheKey, AtlasEntry>)
    requires
        picked.len() == gs.len(),
        forall|j: int| 0 <= j < gs.len() ==> #[trigger] picked[j],
    ensures
        emitted(gs, picked, m) == gs.map_values(|g: RasterGlyph| prepared(g, m[g.cache_key])),
    decreases gs.len(),
{
    if gs.len() > 0 {
        assert(picked[gs.len() - 1]);
        lemma_emitted_all(gs.drop_last(), picked.drop_last(), m);
        assert(gs.map_values(|g: RasterGlyph| prepared(g, m[g.cache_key])) =~= gs.drop_last().map_values(
            |g: RasterGlyph| prepared(g, m[g.cache_key]),
        ).push(prepared(gs.last(), m[gs.last().cache_key])));
    }
}

/// The glyph `g` drawn from the entry `e`.
fn prepared_glyph(g: &RasterGlyph, e: &AtlasEntry) -> (r: PreparedGlyph)
    ensures
        r == prepared(*g, *e),
{
    PreparedGlyph {
        atlas_id: e.id,
        x: g.x.wrapping_add(e.left),
        y: g.y.wrapping_sub(e.top),
        width: e.width,
        height: e.height,
        atlas_x: e.x,
        atlas_y: e.y,
        format: e.format,
    }
}

/// `cosmic_text::FontSystem::new`: loads the system fonts.
#[verifier::external_body]
fn load_system_fonts() -> (r: CosmicFontSystem) {
    CosmicFontSystem::new()
}

/// The number of faces in the font database (`fontdb::Database::faces`).
#[verifier::external_body]
fn face_count(fonts: &CosmicFontSystem) -> (r: usize) {
    fonts.db().faces().count()
}

/// `SwashCache::new`: an empty rasterizer cache.
#[verifier::external_body]
fn new_swash_cache() -> (r: SwashCache) {
    SwashCache::new()
}

/// `SwashCache::get_image_uncached`: rasterizes the glyph `key` afresh.
/// What comes back depends on the fonts loaded.
#[verifier::external_body]
fn rasterize(cache: &mut SwashCache, fonts: &mut CosmicFontSystem, key: CacheKey) -> (r: Option<RasterImage>) {
    cache.get_image_uncached(fonts, key).map(
        |image| RasterImage {
            width: image.placement.width,
            height: image.placement.height,
            left: image.placement.left,
            top: image.placement.top,
            content: match image.content {
                SwashContent::Mask => GlyphContent::Mask,
                SwashContent::SubpixelMask => GlyphContent::SubpixelMask,
                SwashContent::Color => GlyphContent::Color,
            },
            pixels: image.data,
        },
    )
}

/// `SwashCache::get_image`: whether the rasterizer has an image of the
/// glyph `key` (cached after the first call). What comes back depends on
/// the fonts loaded.
#[verifier::external_body]
fn has_image(cache: &mut SwashCache, fonts: &mut CosmicFontSystem, key: CacheKey) -> (r: bool) {
    cache.get_image(fonts, key).is_some()
}

/// Owns the system font database and the rasterizer.
pub struct FontSystem {
    pub inner: CosmicFontSystem,
    pub rasterizer: SwashCache,
    pub diagnostics: FallbackDiagnostics,
}

impl FontSystem {
    /// Loads the system fonts; the diagnostics count their faces and
    /// nothing else yet.
    pub fn new() -> (r: Self)
        ensures
            r.diagnostics.distinct_fonts_used == 0,
            r.diagnostics.missing_glyphs == 0,
            r.diagnostics.atlas_full_glyphs == 0,
            !r.diagnostics.used_multiple_fonts,
    {
        let inner = load_system_fonts();
        let system_faces = face_count(&inner);
        FontSystem {
            inner,
            rasterizer: new_swash_cache(),
            diagnostics: FallbackDiagnostics {
                system_faces,
                distinct_fonts_used: 0,
                missing_glyphs: 0,
                atlas_full_glyphs: 0,
                used_multiple_fonts: false,
            },
        }
    }

    /// Rasterizes and places every glyph that `atlas` does not hold yet,
    /// and lists the glyphs to draw, in order: a glyph is drawn when the
    /// atlas holds it or it could be placed; one without an image counts
    /// as missing, and one left out whose image exists counts as not fitting.
    /// Exactly: for what the rasterizer gave at each uncached glyph, the
    /// atlas, the glyphs, the uploads and both counts are those of
    /// `prep_fold` over the glyphs from the atlas as it was. Which images
    /// come back depends on the fonts installed, and is not stated.
    /// Whatever they are, the atlas keeps every entry it had, gains entries
    /// only for keys of `glyphs`, one per upload, and draws every glyph it
    /// already held; when it held all of them nothing changes and nothing
    /// is uploaded; and when every glyph is drawn, the atlas now holds them
    /// all, so preparing them again draws the same glyphs and uploads nothing.
    #[verifier::rlimit(40)]
    pub fn prepare(&mut self, glyphs: &[RasterGlyph], atlas: &mut GlyphAtlas) -> (r: PreparedText)
        requires
            old(atlas).wf(),
            old(atlas).size().0 < 0x8000_0000,
            old(atlas).size().1 < 0x8000_0000,
        ensures
            final(atlas).wf(),
            final(atlas).size() == old(atlas).size(),
            final(atlas).gen() == old(atlas).gen(),
            r.atlas_generation == old(atlas).gen(),
            exists|images: Seq<Option<RasterImage>>, has: Seq<bool>|
                #![trigger prep_fold(old(atlas).size().0, old(atlas).size().1, prep_start(*old(atlas)), glyphs@, images, has)]
                {
                    let st = prep_fold(old(atlas).size().0, old(atlas).size().1, prep_start(*old(atlas)), glyphs@, images, has);
                    &&& images.len() == glyphs@.len()
                    &&& has.len() == glyphs@.len()
                    &&& final(atlas).cursor() == st.cursor
                    &&& final(atlas).next_entry_id() == st.next_id
                    &&& final(atlas).entries() == st.entries
                    &&& r.glyphs@ == st.glyphs
                    &&& r.uploads@ == st.uploads
                    &&& final(self).diagnostics.missing_glyphs == st.missing
                    &&& final(self).diagnostics.atlas_full_glyphs == st.full
                },
            extends(final(atlas).entries(), old(atlas).entries()),
            forall|k: CacheKey| #[trigger]
                final(atlas).entries().dom().contains(k) && !old(atlas).entries().dom().contains(k) ==> exists|i: int|
                    0 <= i < glyphs@.len() && glyphs@[i].cache_key == k,
            final(atlas).entries().len() == old(atlas).entries().len() + r.uploads@.len(),
            exists|picked: Seq<bool>|
                {
                    &&& picked.len() == glyphs@.len()
                    &&& r.glyphs@ == emitted(glyphs@, picked, final(atlas).entries())
                    &&& forall|i: int|
                        0 <= i < glyphs@.len() && #[trigger] picked[i] ==> final(atlas).entries().dom().contains(
                            glyphs@[i].cache_key,
                        )
                    &&& forall|i: int|
                        0 <= i < glyphs@.len() && old(atlas).entries().dom().contains(#[trigger] glyphs@[i].cache_key)
                            ==> picked[i]
                },
            (forall|i: int| 0 <= i < glyphs@.len() ==> old(atlas).entries().dom().contains(#[trigger] glyphs@[i].cache_key))
                ==> {
                &&& r.glyphs@ == glyphs@.map_values(|g: RasterGlyph| prepared(g, old(atlas).entries()[g.cache_key]))
                &&& r.uploads@.len() == 0
                &&& final(atlas).entries() == old(atlas).entries()
                &&& final(atlas).cursor() == old(atlas).cursor()
                &&& final(atlas).next_entry_id() == old(atlas).next_entry_id()
                &&& final(self).diagnostics.missing_glyphs == 0
                &&& final(self).diagnostics.atlas_full_glyphs == 0
            },
            r.glyphs@.len() <= glyphs@.len(),
            r.glyphs@.len() == glyphs@.len() ==> {
                &&& forall|i: int| 0 <= i < glyphs@.len() ==> final(atlas).entries().dom().contains(#[trigger] glyphs@[i].cache_key)
                &&& r.glyphs@ == glyphs@.map_values(|g: RasterGlyph| prepared(g, final(atlas).entries()[g.cache_key]))
            },
            final(self).diagnostics.missing_glyphs <= glyphs@.len(),
            final(self).diagnostics.atlas_full_glyphs <= glyphs@.len(),
            final(self).diagnostics.system_faces == old(self).diagnostics.system_faces,
            final(self).diagnostics.distinct_fonts_used == old(self).diagnostics.distinct_fonts_used,
            final(self).diagnostics.used_multiple_fonts == old(self).diagnostics.used_multiple_fonts,
    {
        let ghost a0 = atlas.entries();
        let ghost c0 = atlas.cursor();
        let ghost id0 = atlas.next_entry_id();
        let ghost s0 = prep_start(*atlas);
        let ghost aw = atlas.size().0;
        let ghost ah = atlas.size().1;
        self.diagnostics.missing_glyphs = 0;
        self.diagnostics.atlas_full_glyphs = 0;
        let mut out: Vec<PreparedGlyph> = Vec::new();
        let mut uploads: Vec<AtlasUpload> = Vec::new();
        let ghost mut picked: Seq<bool> = Seq::empty();
        let ghost mut images: Seq<Option<RasterImage>> = Seq::empty();
        let ghost mut has: Seq<bool> = Seq::empty();
        let n = glyphs.len();
        let mut i: usize = 0;
        while i < n
            invariant
                n == glyphs@.len(),
                0 <= i <= n,
                atlas.wf(),
                atlas.size() == old(atlas).size(),
                atlas.size() == (aw, ah),
                atlas.size().0 < 0x8000_0000,
                atlas.size().1 < 0x8000_0000,
                atlas.gen() == old(atlas).gen(),
                a0 == old(atlas).entries(),
                c0 == old(atlas).cursor(),
                id0 == old(atlas).next_entry_id(),
                s0 == prep_start(*old(atlas)),
                images.len() == i,
                has.len() == i,
                ({
                    let st = prep_fold(aw, ah, s0, glyphs@.take(i as int), images, has);
                    &&& atlas.cursor() == st.cursor
                    &&& atlas.next_entry_id() == st.next_id
                    &&& atlas.entries() == st.entries
                    &&& out@ == st.glyphs
                    &&& uploads@ == st.uploads
                    &&& self.diagnostics.missing_glyphs == st.missing
                    &&& self.diagnostics.atlas_full_glyphs == st.full
                }),
                extends(atlas.entries(), a0),
                forall|k: CacheKey| #[trigger]
                    atlas.entries().dom().contains(k) && !a0.dom().contains(k) ==> exists|j: int|
                        0 <= j < i && glyphs@[j].cache_key == k,
                atlas.entries().len() == a0.len() + uploads@.len(),
                picked.len() == i,
                out@ == emitted(glyphs@.take(i as int), picked, atlas.entries()),
                forall|j: int| 0 <= j < i && #[trigger] picked[j] ==> atlas.entries().dom().contains(glyphs@[j].cache_key),
                forall|j: int| 0 <= j < i && a0.dom().contains(#[trigger] glyphs@[j].cache_key) ==> picked[j],
                (forall|j: int| 0 <= j < i ==> a0.dom().contains(#[trigger] glyphs@[j].cache_key)) ==> {
                    &&& uploads@.len() == 0
                    &&& atlas.entries() == a0
                    &&& atlas.cursor() == c0
                    &&& atlas.next_entry_id() == id0
                    &&& self.diagnostics.missing_glyphs == 0
                    &&& self.diagnostics.atlas_full_glyphs == 0
                },
                self.diagnostics.missing_glyphs <= i,
                self.diagnostics.atlas_full_glyphs <= i,
                self.diagnostics.system_faces == old(self).diagnostics.system_faces,
                self.diagnostics.distinct_fonts_used == old(self).diagnostics.distinct_fonts_used,
                self.diagnostics.used_multiple_fonts == old(self).diagnostics.used_multiple_fonts,
            decreases n - i,
        {
            let g = glyphs[i];
            let ghost before = atlas.entries();
            let ghost st = prep_fold(aw, ah, s0, glyphs@.take(i as int), images, has);
            let ghost mut im: Option<RasterImage> = None;
            let entry = match entry_map_get(&atlas.entries, &g.cache_key) {
                Some(e) => Some(e),
                None => {
                    let image = rasterize(&mut self.rasterizer, &mut self.inner, g.cache_key);
                    proof {
                        im = image;
                    }
                    proof {
                        if image is Some {
                            lemma_small_atlas_in_range(*atlas, image->Some_0.width, image->Some_0.height);
                        }
                    }
                    match atlas.offer(g.cache_key, image, &mut uploads) {
                        Admission::Placed(e) => Some(e),
                        Admission::Missing => {
                            self.diagnostics.missing_glyphs = self.diagnostics.missing_glyphs + 1;
                            None
                        },
                        Admission::Full => None,
                    }
                },
            };
            proof {
                assert(extends(atlas.entries(), before));
                assert(before.dom().finite());
                lemma_emitted_extends(glyphs@.take(i as int), picked, before, atlas.entries());
                assert(glyphs@.take(i + 1).drop_last() =~= glyphs@.take(i as int));
                assert(glyphs@.take(i + 1).last() == g);
            }
            let ghost mut h: bool = false;
            match entry {
                Some(e) => {
                    out.push(prepared_glyph(&g, &e));
                    proof {
                        assert(picked.push(true).drop_last() =~= picked);
                        picked = picked.push(true);
                    }
                },
                None => {
                    let found = has_image(&mut self.rasterizer, &mut self.inner, g.cache_key);
                    if found {
                        self.diagnostics.atlas_full_glyphs = self.diagnostics.atlas_full_glyphs + 1;
                    }
                    proof {
                        h = found;
                        assert(picked.push(false).drop_last() =~= picked);
                        picked = picked.push(false);
                    }
                },
            }
            proof {
                assert(images.push(im).drop_last() =~= images);
                assert(has.push(h).drop_last() =~= has);
                images = images.push(im);
                has = has.push(h);
                assert(prep_fold(aw, ah, s0, glyphs@.take(i + 1), images, has) == prep_step(aw, ah, st, g, im, h));
            }
            i = i + 1;
        }
        proof {
            assert(glyphs@.take(n as int) =~= glyphs@);
            if forall|j: int| 0 <= j < n ==> a0.dom().contains(#[trigger] glyphs@[j].cache_key) {
                assert forall|j: int| 0 <= j < glyphs@.len() implies #[trigger] picked[j] by {
                    assert(a0.dom().contains(glyphs@[j].cache_key));
                }
                lemma_emitted_all(glyphs@, picked, atlas.entries());
            }
            lemma_emitted_len(glyphs@, picked, atlas.entries());
            if out@.len() == n {
                lemma_emitted_all(glyphs@, picked, atlas.entries());
                assert forall|j: int| 0 <= j < glyphs@.len() implies atlas.entries().dom().contains(
                    #[trigger] glyphs@[j].cache_key,
                ) by {
                    assert(picked[j]);
                }
            }
        }
        PreparedText { atlas_generation: atlas.generation, glyphs: out, uploads }
    }

    /// How font fallback and atlas placement went.
    pub fn diagnostics(&self) -> (r: &FallbackDiagnostics)
        ensures
            *r == self.diagnostics,
    {
        &self.diagnostics
    }
}

impl Default for FontSystem {
    /// The same text system as `FontSystem::new`.
    fn default() -> (r: Self)
        ensures
            r.diagnostics.distinct_fonts_used == 0,
            r.diagnostics.missing_glyphs == 0,
            r.diagnostics.atlas_full_glyphs == 0,
            !r.diagnostics.used_multiple_fonts,
    {
        FontSystem::new()
    }
}

} // verus!
